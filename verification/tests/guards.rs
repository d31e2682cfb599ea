use syl_elab::coverage::{
    CoverageBoundaries, CoverageClaim, SegmentCoverage, SignalCoverageBoundaries,
    SignalCoverageClaim, SignalSegmentCoverage,
};
use syl_elab::expr::EirBound;
use syl_elab::guard::{DriverGuardSet, EirGuard, EirGuardFrame, Span};
use syl_elab::guard_coverage::{GuardCoverage, GuardFrameRelation};
use syl_elab::range::DriverStaticRange;

fn then_(label: &str) -> EirGuardFrame {
    EirGuardFrame::if_then(label, Span::default())
}

fn else_(label: &str) -> EirGuardFrame {
    EirGuardFrame::if_else(label, Span::default())
}

fn guard(frames: &[EirGuardFrame]) -> EirGuard {
    EirGuard::from_frames(frames)
}

fn exclusive(a: &EirGuard, b: &EirGuard) -> bool {
    DriverGuardSet::new(a, b).is_mutually_exclusive()
}

fn ends(r: &DriverStaticRange) -> (u64, u64) {
    (r.low(), r.high())
}

#[test]
fn root_guard_never_excludes() {
    let root = EirGuard::root();
    let branch = guard(&[then_("lbl")]);
    assert!(root.is_root());
    assert!(!exclusive(&root, &branch));
    assert!(!exclusive(&branch, &root));
}

#[test]
fn opposite_branches_of_one_if_exclude() {
    let a = guard(&[then_("lbl")]);
    let b = guard(&[else_("lbl")]);
    assert!(exclusive(&a, &b));
    assert!(exclusive(&b, &a));
}

#[test]
fn nested_opposite_branches_under_shared_prefix_exclude() {
    let a = guard(&[then_("a"), then_("b")]);
    let b = guard(&[then_("a"), else_("b")]);
    assert!(exclusive(&a, &b));
}

#[test]
fn different_labels_do_not_exclude() {
    let a = guard(&[then_("a")]);
    let b = guard(&[then_("b")]);
    assert!(!exclusive(&a, &b));
    let c = guard(&[else_("b")]);
    assert!(!exclusive(&a, &c));
}

#[test]
fn prefix_guards_do_not_exclude() {
    let outer = guard(&[then_("a")]);
    let inner = guard(&[then_("a"), then_("b")]);
    assert!(!exclusive(&outer, &inner));
    assert!(!exclusive(&inner, &outer));
}

#[test]
fn equal_guards_do_not_exclude() {
    let a = guard(&[then_("a"), else_("b")]);
    let b = guard(&[then_("a"), else_("b")]);
    assert!(a.same_as(&b));
    assert!(!exclusive(&a, &b));
}

#[test]
fn loop_frames_never_exclude() {
    let a = guard(&[EirGuardFrame::loop_frame(
        "gen",
        "i",
        EirBound::from_source("0"),
        EirBound::from_source("N"),
        Span::default(),
    )]);
    let b = guard(&[EirGuardFrame::loop_frame(
        "gen",
        "j",
        EirBound::from_source("0"),
        EirBound::from_source("N"),
        Span::default(),
    )]);
    assert!(!a.same_as(&b));
    assert!(!exclusive(&a, &b));
}

#[test]
fn labels_at_different_places_are_different_ifs() {
    let a = guard(&[EirGuardFrame::if_then("lbl", Span::new_in(0, 4, 12))]);
    let b = guard(&[EirGuardFrame::if_else("lbl", Span::new_in(0, 20, 30))]);
    assert!(!exclusive(&a, &b));
    let c = guard(&[EirGuardFrame::if_else("lbl", Span::new_in(0, 4, 12))]);
    assert!(exclusive(&a, &c));
}

#[test]
fn guard_coverage_needs_a_path_for_every_case() {
    let root = EirGuard::root();
    let then_a = guard(&[then_("a")]);
    let else_a = guard(&[else_("a")]);
    let then_a_then_b = guard(&[then_("a"), then_("b")]);
    let then_a_else_b = guard(&[then_("a"), else_("b")]);

    let empty = GuardCoverage::new();
    assert!(!empty.covers_unconditionally());

    let mut unconditional = GuardCoverage::new();
    unconditional.add(&root);
    assert!(unconditional.covers_unconditionally());

    let mut only_then = GuardCoverage::new();
    only_then.add(&then_a);
    assert!(!only_then.covers_unconditionally());

    let mut both = GuardCoverage::new();
    both.add(&then_a);
    both.add(&else_a);
    assert!(both.covers_unconditionally());

    let mut nested = GuardCoverage::new();
    nested.add(&then_a_then_b);
    nested.add(&else_a);
    assert!(!nested.covers_unconditionally());
    nested.add(&then_a_else_b);
    assert!(nested.covers_unconditionally());
}

#[test]
fn guard_coverage_under_a_context() {
    let then_a = guard(&[then_("a")]);
    let else_a = guard(&[else_("a")]);
    let root = EirGuard::root();

    let mut inside = GuardCoverage::new();
    inside.add(&then_a);
    assert!(inside.covers_under(&then_a));
    assert!(!inside.covers_under(&else_a));

    let mut outside = GuardCoverage::new();
    outside.add(&root);
    assert!(outside.covers_under(&then_a));
}

#[test]
fn residual_of_drive_inside_context() {
    let drive = [then_("a"), else_("b")];
    let context = [then_("a")];
    let inside = GuardFrameRelation::new(&drive, &context).residual().unwrap();
    assert_eq!(inside.len(), 1);
    let around = GuardFrameRelation::new(&context, &drive).residual().unwrap();
    assert_eq!(around.len(), 0);
    let other = [else_("a")];
    assert!(GuardFrameRelation::new(&other, &context).residual().is_none());
}

#[test]
fn boundaries_cut_required_range_at_claims() {
    let required = DriverStaticRange::new(0, 7);
    let mut boundaries = CoverageBoundaries::new(required);
    let g = EirGuard::root();
    boundaries.add_claim(&CoverageClaim::new(DriverStaticRange::new(2, 3), &g));
    boundaries.add_claim(&CoverageClaim::new(DriverStaticRange::new(10, 12), &g));
    let segments: Vec<(u64, u64)> = boundaries.into_segments().iter().map(ends).collect();
    assert_eq!(segments, vec![(0, 1), (2, 3), (4, 7)]);
}

#[test]
fn boundaries_of_range_ending_at_largest_position() {
    let required = DriverStaticRange::new(5, u64::MAX);
    let boundaries = CoverageBoundaries::new(required);
    assert!(boundaries.into_segments().is_empty());

    let signal = SignalCoverageBoundaries::new(required);
    let segments: Vec<(u64, u64)> = signal.into_segments().iter().map(ends).collect();
    assert_eq!(segments, vec![(5, u64::MAX - 1)]);
}

#[test]
fn signal_boundaries_cut_required_range_at_claims() {
    let required = DriverStaticRange::new(0, 3);
    let mut boundaries = SignalCoverageBoundaries::new(required);
    let g = EirGuard::root();
    boundaries.add_claim(&SignalCoverageClaim::new(DriverStaticRange::new(1, 1), &g));
    let segments: Vec<(u64, u64)> = boundaries.into_segments().iter().map(ends).collect();
    assert_eq!(segments, vec![(0, 0), (1, 1), (2, 3)]);
}

#[test]
fn claims_clip_to_required_range() {
    let g = EirGuard::root();
    let claim = CoverageClaim::new(DriverStaticRange::new(4, 20), &g);
    let clipped = claim.clipped_to(DriverStaticRange::new(0, 7)).unwrap();
    assert_eq!(ends(&clipped.range), (4, 7));
    assert!(claim.clipped_to(DriverStaticRange::new(0, 3)).is_none());
}

#[test]
fn segment_coverage_needs_every_bit_covered() {
    let root = EirGuard::root();
    let required = DriverStaticRange::new(0, 7);

    let halves = SegmentCoverage::new(
        required,
        vec![
            CoverageClaim::new(DriverStaticRange::new(0, 3), &root),
            CoverageClaim::new(DriverStaticRange::new(4, 7), &root),
        ],
    );
    assert!(halves.is_complete());

    let half = SegmentCoverage::new(
        required,
        vec![CoverageClaim::new(DriverStaticRange::new(0, 3), &root)],
    );
    assert!(!half.is_complete());

    let none = SegmentCoverage::new(required, Vec::new());
    assert!(!none.is_complete());
}

#[test]
fn segment_coverage_by_both_branches() {
    let then_a = guard(&[then_("a")]);
    let else_a = guard(&[else_("a")]);
    let required = DriverStaticRange::new(0, 7);
    let both = SegmentCoverage::new(
        required,
        vec![
            CoverageClaim::new(DriverStaticRange::new(0, 7), &then_a),
            CoverageClaim::new(DriverStaticRange::new(0, 7), &else_a),
        ],
    );
    assert!(both.is_complete());

    let one = SegmentCoverage::new(
        required,
        vec![CoverageClaim::new(DriverStaticRange::new(0, 7), &then_a)],
    );
    assert!(!one.is_complete());
    assert!(one.is_complete_under(&then_a));
    assert!(!one.is_complete_under(&else_a));
}

#[test]
fn signal_segment_coverage() {
    let root = EirGuard::root();
    let required = DriverStaticRange::new(0, 3);
    let full = SignalSegmentCoverage::new(
        required,
        vec![
            SignalCoverageClaim::new(DriverStaticRange::new(0, 1), &root),
            SignalCoverageClaim::new(DriverStaticRange::new(2, 9), &root),
        ],
    );
    assert!(full.is_complete());
    let gap = SignalSegmentCoverage::new(
        required,
        vec![SignalCoverageClaim::new(DriverStaticRange::new(0, 1), &root)],
    );
    assert!(!gap.is_complete());
}
