use syl_elab::bound::DriverBound;
use syl_elab::expr::{EirBinaryOp, EirBound, EirExpr};
use syl_elab::guard::{EirGuard, EirGuardFrame, Span};
use syl_elab::loop_bounds::DriverLoopGuard;
use syl_elab::place::{DriverExpr, DriverObject, DriverPlace, ObjectId};
use syl_elab::port_coverage::{CoverageRoot, SymbolicLoopCoverage};

fn loop_frame(label: &str, index: &str, start: &str, end: &str) -> EirGuardFrame {
    EirGuardFrame::loop_frame(
        label,
        index,
        EirBound::from_source(start),
        EirBound::from_source(end),
        Span::default(),
    )
}

#[test]
fn single_loop_bounds_accept_symbolic_part_array() {
    let frame = loop_frame("gen_i", "i", "0", "N");
    let guard = EirGuard::from_frames(&[frame]);
    let bounds = DriverLoopGuard::new(&guard)
        .single_loop_bounds()
        .expect("single loop guard must expose symbolic bounds");

    assert!(bounds.index_matches(&DriverExpr::Ident("i".to_string())));
    assert!(bounds.covers_part_array(&DriverBound::new("N * 8"), &DriverBound::new("8")));
}

#[test]
fn single_loop_context_keeps_branch_residual() {
    let frames = [
        loop_frame("gen_i", "i", "0", "N"),
        EirGuardFrame::if_then("branch", Span::default()),
    ];
    let guard = EirGuard::from_frames(&frames);
    let context = DriverLoopGuard::new(&guard)
        .single_loop_context()
        .expect("one loop plus branch context should expose symbolic bounds");

    assert!(context
        .bounds()
        .index_matches(&DriverExpr::Ident("i".to_string())));
    assert_eq!(context.into_residual_guard().frames().len(), 1);
}

#[test]
fn single_loop_bounds_reject_branch_context() {
    let frame = EirGuardFrame::if_then("branch", Span::default());
    let guard = EirGuard::from_frames(&[frame]);

    assert!(DriverLoopGuard::new(&guard).single_loop_bounds().is_none());
}

#[test]
fn symbolic_loop_coverage_requires_branch_residual_coverage() {
    let port_width = EirBound::new(
        "N * 8",
        EirExpr::binary(EirBinaryOp::Mul, EirExpr::ident("N"), EirExpr::Int(8)),
    );
    let mut coverage = SymbolicLoopCoverage::new("out", &port_width, CoverageRoot::new(None));
    let place = DriverPlace::IndexedPartSelect {
        base: Box::new(DriverPlace::Object(DriverObject::new(ObjectId::new(0), "out"))),
        index: DriverExpr::Ident("i".to_string()),
        width: DriverBound::new("8"),
    };
    let then_guard = EirGuard::from_frames(&[
        loop_frame("gen_i", "i", "0", "N"),
        EirGuardFrame::if_then("branch", Span::default()),
    ]);
    let else_guard = EirGuard::from_frames(&[
        loop_frame("gen_i", "i", "0", "N"),
        EirGuardFrame::if_else("branch", Span::default()),
    ]);

    coverage.add_drive(&place, &then_guard);
    assert!(!coverage.proves_complete());

    coverage.add_drive(&place, &else_guard);
    assert!(coverage.proves_complete());
}

#[test]
fn two_loops_have_no_single_loop_context() {
    let guard = EirGuard::from_frames(&[
        loop_frame("outer", "i", "0", "N"),
        loop_frame("inner", "j", "0", "M"),
    ]);

    assert!(DriverLoopGuard::new(&guard).single_loop_context().is_none());
}

#[test]
fn loop_not_starting_at_zero_does_not_match_index() {
    let guard = EirGuard::from_frames(&[loop_frame("gen_i", "i", "1", "N")]);
    let bounds = DriverLoopGuard::new(&guard).single_loop_bounds().unwrap();

    assert!(!bounds.starts_at_zero());
    assert!(!bounds.index_matches(&DriverExpr::Ident("i".to_string())));
    assert!(!bounds.covers_bit_array(&DriverBound::new("N")));
}

#[test]
fn bit_array_covered_by_loop_to_width() {
    let guard = EirGuard::from_frames(&[loop_frame("gen_i", "i", "0", "N")]);
    let bounds = DriverLoopGuard::new(&guard).single_loop_bounds().unwrap();

    assert!(bounds.covers_bit_array(&DriverBound::new("N")));
    assert!(!bounds.covers_bit_array(&DriverBound::new("M")));
    assert!(!bounds.index_matches(&DriverExpr::Ident("j".to_string())));
}

#[test]
fn symbolic_loop_coverage_ignores_drives_of_other_roots() {
    let port_width = EirBound::from_source("N");
    let mut coverage = SymbolicLoopCoverage::new("out", &port_width, CoverageRoot::new(None));
    let place = DriverPlace::Index {
        base: Box::new(DriverPlace::Object(DriverObject::new(ObjectId::new(1), "other"))),
        index: DriverExpr::Ident("i".to_string()),
    };
    let guard = EirGuard::from_frames(&[loop_frame("gen_i", "i", "0", "N")]);

    coverage.add_drive(&place, &guard);
    assert!(!coverage.proves_complete());

    let own = DriverPlace::Index {
        base: Box::new(DriverPlace::Object(DriverObject::new(ObjectId::new(0), "out"))),
        index: DriverExpr::Ident("i".to_string()),
    };
    coverage.add_drive(&own, &guard);
    assert!(coverage.proves_complete());
}
