//! The driver design-rule checks: every drive targets what its effect
//! allows, stays within the bounds of its object, and conflicts with no
//! earlier drive of the same place that can be active at the same time.
use crate::bound::{BoundModel, DriverBound, bound_value, static_ends};
use crate::design::DriverDrcReport;
use crate::eir::EirDesign;
use crate::expr::EirExpr;
use crate::facts::{
    CreateFact, CreateKind, DriveEffect, DriveFact, DriverFacts, EirExpansion, EirOrigin, ReadFact,
};
use crate::formula::FormulaModel;
use crate::guard::{DriverGuardSet, EirGuard, EirGuardFrame, Span, frames_equal, guards_exclusive};
use crate::loop_bounds::{
    DriverLoopBounds, DriverLoopGuard, count_loops, covers_bit_array_spec, covers_part_array_spec,
    last_loop, loop_index_matches,
};
use crate::overlap::places_may_overlap;
use crate::place::{
    DriverExpr, DriverObjectTable, DriverPlace, ObjectId, place_text, same_driver_expr, same_place,
};
use crate::range::{DriverStaticRange, indexed_part_ends};
use crate::text::{chars_of, push_all, str_eq, string_of};
use crate::tristate::{
    ActivityModel, DriveActivity, DriveActivityClassifier, FormulaTree, activities_overlap,
    drive_activity_spec,
};
use vstd::prelude::*;

verus! {

// ---------------------------------------------------------------------------
// Diagnostics
// ---------------------------------------------------------------------------

/// What a driver check found wrong.
#[derive(Debug, PartialEq, Eq)]
pub enum DriverError {
    NextTargetIsNotReg { name: String },
    DuplicateNextDriver { name: String },
    ContinuousDriveTargetIsReg { name: String },
    DuplicateHardwareDriver { name: String },
    DriverPlaceOutOfBounds { place: String, root: String },
    UndrivenOut { name: String },
    UndrivenRead { name: String },
    UndrivenSignal { name: String },
    UnsupportedHardwareValueExpression,
    UnknownHardwareObject { module: String, name: String },
    UnknownParameter { name: String, callable: String },
}

/// What a driver error says, by text.
pub enum ErrorSpec {
    NextTargetIsNotReg(Seq<char>),
    DuplicateNextDriver(Seq<char>),
    ContinuousDriveTargetIsReg(Seq<char>),
    DuplicateHardwareDriver(Seq<char>),
    DriverPlaceOutOfBounds(Seq<char>, Seq<char>),
    UndrivenOut(Seq<char>),
    UndrivenRead(Seq<char>),
    UndrivenSignal(Seq<char>),
    UnsupportedHardwareValueExpression,
    UnknownHardwareObject(Seq<char>, Seq<char>),
    UnknownParameter(Seq<char>, Seq<char>),
}

/// The text of a driver error.
pub open spec fn error_spec(e: DriverError) -> ErrorSpec {
    match e {
        DriverError::NextTargetIsNotReg { name } => ErrorSpec::NextTargetIsNotReg(name@),
        DriverError::DuplicateNextDriver { name } => ErrorSpec::DuplicateNextDriver(name@),
        DriverError::ContinuousDriveTargetIsReg { name } => ErrorSpec::ContinuousDriveTargetIsReg(
            name@,
        ),
        DriverError::DuplicateHardwareDriver { name } => ErrorSpec::DuplicateHardwareDriver(name@),
        DriverError::DriverPlaceOutOfBounds { place, root } => ErrorSpec::DriverPlaceOutOfBounds(
            place@,
            root@,
        ),
        DriverError::UndrivenOut { name } => ErrorSpec::UndrivenOut(name@),
        DriverError::UndrivenRead { name } => ErrorSpec::UndrivenRead(name@),
        DriverError::UndrivenSignal { name } => ErrorSpec::UndrivenSignal(name@),
        DriverError::UnsupportedHardwareValueExpression => ErrorSpec::UnsupportedHardwareValueExpression,
        DriverError::UnknownHardwareObject { module, name } => ErrorSpec::UnknownHardwareObject(
            module@,
            name@,
        ),
        DriverError::UnknownParameter { name, callable } => ErrorSpec::UnknownParameter(
            name@,
            callable@,
        ),
    }
}

/// A driver error at a place in the source, with related places and what
/// they are.
#[derive(Debug)]
pub struct DriverDiagnostic {
    pub kind: DriverError,
    pub span: Span,
    pub related: Vec<(Span, String)>,
}

/// What a diagnostic says.
pub struct DiagnosticModel {
    pub kind: ErrorSpec,
    pub span: Span,
    pub related: Seq<(Span, Seq<char>)>,
}

/// The texts of related places.
pub open spec fn related_views(v: Seq<(Span, String)>) -> Seq<(Span, Seq<char>)> {
    v.map_values(|p: (Span, String)| (p.0, p.1@))
}

/// What a diagnostic says.
pub open spec fn diag_model(d: DriverDiagnostic) -> DiagnosticModel {
    DiagnosticModel { kind: error_spec(d.kind), span: d.span, related: related_views(d.related@) }
}

/// What a list of diagnostics says.
pub open spec fn diag_models(v: Seq<DriverDiagnostic>) -> Seq<DiagnosticModel> {
    v.map_values(|d: DriverDiagnostic| diag_model(d))
}

/// A diagnostic with no related places.
pub open spec fn plain_diag(kind: ErrorSpec, span: Span) -> DiagnosticModel {
    DiagnosticModel { kind, span, related: Seq::empty() }
}

impl DriverDiagnostic {
    /// A diagnostic with no related places.
    pub fn driver_error(kind: DriverError, span: Span) -> (r: Self)
        ensures
            r.kind == kind,
            r.span == span,
            r.related@.len() == 0,
    {
        DriverDiagnostic { kind, span, related: Vec::new() }
    }

    /// A diagnostic with related places.
    pub fn driver_error_with_related(
        kind: DriverError,
        span: Span,
        related: Vec<(Span, String)>,
    ) -> (r: Self)
        ensures
            r.kind == kind,
            r.span == span,
            r.related == related,
    {
        DriverDiagnostic { kind, span, related }
    }
}

// ---------------------------------------------------------------------------
// Related places of a conflict
// ---------------------------------------------------------------------------

/// The entry added unless it is listed already.
pub open spec fn push_unique(rel: Seq<(Span, Seq<char>)>, e: (Span, Seq<char>)) -> Seq<
    (Span, Seq<char>),
> {
    if rel.contains(e) {
        rel
    } else {
        rel.push(e)
    }
}

/// The entries added in order, each unless it is listed already.
pub open spec fn push_all_unique(rel: Seq<(Span, Seq<char>)>, es: Seq<(Span, Seq<char>)>) -> Seq<
    (Span, Seq<char>),
>
    decreases es.len(),
{
    if es.len() == 0 {
        rel
    } else {
        push_unique(push_all_unique(rel, es.drop_last()), es.last())
    }
}

/// The entry for one expansion: where it was instantiated, and which cell
/// as which instance, on the given side of a conflict.
pub open spec fn expansion_entry(side: Seq<char>, e: EirExpansion) -> (Span, Seq<char>) {
    (e.span, side + " expansion "@ + e.callable@ + " via "@ + e.instance@)
}

/// The entries for the expansions of an origin, outermost first.
pub open spec fn expansion_entries(side: Seq<char>, origin: EirOrigin) -> Seq<(Span, Seq<char>)> {
    origin.expansion_stack@.map_values(|e: EirExpansion| expansion_entry(side, e))
}

/// The related places of a conflict: the two claims, then the expansions of
/// the previous and then of the conflicting one, each listed once.
pub open spec fn conflict_related_spec(
    previous: EirOrigin,
    conflicting: EirOrigin,
    previous_label: Seq<char>,
    conflicting_label: Seq<char>,
) -> Seq<(Span, Seq<char>)> {
    push_all_unique(
        Seq::empty(),
        seq![(previous.span, previous_label), (conflicting.span, conflicting_label)]
            + expansion_entries("previous"@, previous) + expansion_entries(
            "conflicting"@,
            conflicting,
        ),
    )
}

/// Adds a related place unless it is listed already.
pub fn push_related(related: &mut Vec<(Span, String)>, span: Span, message: String)
    ensures
        related_views(final(related)@) == push_unique(related_views(old(related)@), (span, message@)),
{
    let ghost before = related_views(related@);
    let mut i: usize = 0;
    while i < related.len()
        invariant
            i <= related.len(),
            before == related_views(related@),
            forall|j: int| 0 <= j < i ==> before[j] != (span, message@),
        decreases related.len() - i,
    {
        if related[i].0 == span && str_eq(related[i].1.as_str(), message.as_str()) {
            proof {
                assert(before[i as int] == (span, message@));
            }
            return;
        }
        i = i + 1;
    }
    let ghost m = message@;
    related.push((span, message));
    proof {
        assert(related_views(related@) =~= before.push((span, m)));
    }
}

/// Adds the related places of the expansions of an origin.
pub fn push_expansion_stack(related: &mut Vec<(Span, String)>, origin: &EirOrigin, side: &str)
    ensures
        related_views(final(related)@) == push_all_unique(
            related_views(old(related)@),
            expansion_entries(side@, *origin),
        ),
{
    let ghost start = related_views(related@);
    let ghost es = expansion_entries(side@, *origin);
    let mut i: usize = 0;
    proof {
        assert(es.take(0) =~= Seq::<(Span, Seq<char>)>::empty());
    }
    while i < origin.expansion_stack.len()
        invariant
            i <= origin.expansion_stack.len(),
            es == expansion_entries(side@, *origin),
            es.len() == origin.expansion_stack.len(),
            related_views(related@) == push_all_unique(start, es.take(i as int)),
        decreases origin.expansion_stack.len() - i,
    {
        let e = &origin.expansion_stack[i];
        let mut text = chars_of(side);
        push_all(&mut text, &chars_of(" expansion "));
        push_all(&mut text, &chars_of(e.callable.as_str()));
        push_all(&mut text, &chars_of(" via "));
        push_all(&mut text, &chars_of(e.instance.as_str()));
        proof {
            assert(es.take(i + 1).drop_last() =~= es.take(i as int));
            assert(es.take(i + 1).last() == es[i as int]);
            assert(text@ == side@ + " expansion "@ + e.callable@ + " via "@ + e.instance@);
        }
        push_related(related, e.span, string_of(&text));
        i = i + 1;
    }
    proof {
        assert(es.take(origin.expansion_stack.len() as int) =~= es);
    }
}

proof fn lemma_push_all_unique_concat(
    rel: Seq<(Span, Seq<char>)>,
    a: Seq<(Span, Seq<char>)>,
    b: Seq<(Span, Seq<char>)>,
)
    ensures
        push_all_unique(push_all_unique(rel, a), b) == push_all_unique(rel, a + b),
    decreases b.len(),
{
    if b.len() > 0 {
        lemma_push_all_unique_concat(rel, a, b.drop_last());
        assert((a + b).drop_last() =~= a + b.drop_last());
        assert((a + b).last() == b.last());
    } else {
        assert(a + b =~= a);
    }
}

/// The related places of a conflict between two claims.
pub fn conflict_related(
    previous: &EirOrigin,
    conflicting: &EirOrigin,
    previous_label: &str,
    conflicting_label: &str,
) -> (r: Vec<(Span, String)>)
    ensures
        related_views(r@) == conflict_related_spec(
            *previous,
            *conflicting,
            previous_label@,
            conflicting_label@,
        ),
{
    let mut related: Vec<(Span, String)> = Vec::new();
    let ghost first = seq![(previous.span, previous_label@)];
    let ghost second = seq![(conflicting.span, conflicting_label@)];
    proof {
        assert(related_views(related@) =~= Seq::<(Span, Seq<char>)>::empty());
    }
    push_related(&mut related, previous.span(), previous_label.to_owned());
    proof {
        assert(first.drop_last() =~= Seq::<(Span, Seq<char>)>::empty());
        assert(first.last() == (previous.span, previous_label@));
        assert(push_all_unique(Seq::empty(), Seq::<(Span, Seq<char>)>::empty()) == Seq::<
            (Span, Seq<char>),
        >::empty());
        assert(!Seq::<(Span, Seq<char>)>::empty().contains((previous.span, previous_label@)));
        assert(related_views(related@) == push_all_unique(Seq::empty(), first));
    }
    push_related(&mut related, conflicting.span(), conflicting_label.to_owned());
    proof {
        assert((first + second).drop_last() =~= first);
        assert((first + second).last() == (conflicting.span, conflicting_label@));
        assert(related_views(related@) == push_all_unique(Seq::empty(), first + second));
    }
    push_expansion_stack(&mut related, previous, "previous");
    proof {
        lemma_push_all_unique_concat(
            Seq::empty(),
            first + second,
            expansion_entries("previous"@, *previous),
        );
    }
    push_expansion_stack(&mut related, conflicting, "conflicting");
    proof {
        lemma_push_all_unique_concat(
            Seq::empty(),
            first + second + expansion_entries("previous"@, *previous),
            expansion_entries("conflicting"@, *conflicting),
        );
        assert(seq![(previous.span, previous_label@), (conflicting.span, conflicting_label@)]
            =~= first + second);
    }
    related
}

// ---------------------------------------------------------------------------
// Targets of drives
// ---------------------------------------------------------------------------

/// The place is a storage object created in the module.
pub open spec fn is_storage(creates: Seq<CreateFact>, module: Seq<char>, target: DriverPlace) -> bool {
    target matches DriverPlace::Object(o) && exists|k: int|
        0 <= k < creates.len() && (#[trigger] creates[k]).module@ == module && creates[k].object_id
            == o.id && creates[k].kind == CreateKind::Storage
}

/// The name of the storage object a place is rooted at, if it is rooted at
/// one of the module.
pub open spec fn storage_root(creates: Seq<CreateFact>, module: Seq<char>, target: DriverPlace) -> Option<
    Seq<char>,
>
    decreases target,
{
    match target {
        DriverPlace::Object(o) => if is_storage(creates, module, target) {
            Some(o.name@)
        } else {
            None
        },
        DriverPlace::Slice { base, .. } => storage_root(creates, module, *base),
        DriverPlace::IndexedPartSelect { base, .. } => storage_root(creates, module, *base),
        DriverPlace::Index { base, .. } => storage_root(creates, module, *base),
        _ => None,
    }
}

/// An earlier accepted next drive claims the same storage target under the
/// same guard in the same module.
pub open spec fn next_claim_matches(claim: DriveFact, drive: DriveFact, target: DriverPlace) -> bool {
    &&& claim.module@ == drive.module@
    &&& claim.effect matches DriveEffect::Next { storage_target } && same_place(*storage_target, target)
    &&& frames_equal(claim.guard.frames@, drive.guard.frames@)
}

/// The position of the first claim that matches.
pub open spec fn first_next_match(claims: Seq<DriveFact>, drive: DriveFact, target: DriverPlace) -> Option<
    int,
>
    decreases claims.len(),
{
    if claims.len() == 0 {
        None
    } else if next_claim_matches(claims[0], drive, target) {
        Some(0)
    } else {
        match first_next_match(claims.drop_first(), drive, target) {
            Some(k) => Some(k + 1),
            None => None,
        }
    }
}

/// What is wrong with the target of a next drive: it is not storage of the
/// module, or an earlier next drive already claims it under the same guard.
pub open spec fn next_target_error(
    creates: Seq<CreateFact>,
    drive: DriveFact,
    accepted: Seq<DriveFact>,
) -> Option<DiagnosticModel> {
    match drive.effect {
        DriveEffect::Next { storage_target } => if !is_storage(
            creates,
            drive.module@,
            *storage_target,
        ) {
            Some(
                plain_diag(
                    ErrorSpec::NextTargetIsNotReg(place_text(*storage_target)),
                    drive.origin.span,
                ),
            )
        } else {
            match first_next_match(accepted, drive, *storage_target) {
                Some(k) => Some(
                    DiagnosticModel {
                        kind: ErrorSpec::DuplicateNextDriver(place_text(*storage_target)),
                        span: drive.origin.span,
                        related: conflict_related_spec(
                            accepted[k].origin,
                            drive.origin,
                            "previous next driver claim"@,
                            "conflicting next driver claim"@,
                        ),
                    },
                ),
                None => None,
            }
        },
        DriveEffect::Continuous => None,
    }
}

/// What is wrong with the target of a continuous drive: it is rooted at a
/// storage object of the module.
pub open spec fn continuous_target_error(creates: Seq<CreateFact>, drive: DriveFact) -> Option<
    DiagnosticModel,
> {
    match drive.effect {
        DriveEffect::Continuous => match storage_root(creates, drive.module@, drive.target) {
            Some(name) => Some(
                plain_diag(ErrorSpec::ContinuousDriveTargetIsReg(name), drive.origin.span),
            ),
            None => None,
        },
        DriveEffect::Next { .. } => None,
    }
}

/// The optional diagnostic a check gives.
pub open spec fn opt_diag(d: Option<DriverDiagnostic>) -> Option<DiagnosticModel> {
    match d {
        Some(x) => Some(diag_model(x)),
        None => None,
    }
}

// ---------------------------------------------------------------------------
// Bounds of driven and read places
// ---------------------------------------------------------------------------

/// What is known of the bits a place selects: a range within its object,
/// nothing, or that it reaches outside its object.
pub enum BoundsModel {
    Valid((u64, u64)),
    Unknown,
    Invalid,
}

/// What is known of the bits a place selects.
#[derive(Clone, Copy)]
pub enum BoundsResult {
    Valid(DriverStaticRange),
    Unknown,
    Invalid,
}

/// What a bounds result says.
pub open spec fn bounds_model(b: BoundsResult) -> BoundsModel {
    match b {
        BoundsResult::Valid(r) => BoundsModel::Valid((r.low_spec(), r.high_spec())),
        BoundsResult::Unknown => BoundsModel::Unknown,
        BoundsResult::Invalid => BoundsModel::Invalid,
    }
}

/// A bounds result whose range has ordered ends.
pub open spec fn bounds_wf(b: BoundsResult) -> bool {
    match b {
        BoundsResult::Valid(r) => r.wf(),
        _ => true,
    }
}

/// The bits of an object: all of its known width; an object of width zero
/// has none.
pub open spec fn object_bounds(widths: Map<usize, BoundModel>, id: ObjectId) -> BoundsModel {
    if !widths.contains_key(id.0) {
        BoundsModel::Unknown
    } else {
        match bound_value(widths[id.0]) {
            Some(w) => if w == 0 {
                BoundsModel::Invalid
            } else {
                BoundsModel::Valid((0, (w - 1) as u64))
            },
            None => BoundsModel::Unknown,
        }
    }
}

/// The bits a projection selects of a base: unknown where the base is, and
/// outside the object where the base is or the projection's bits are not
/// known or do not fit within the base's width.
pub open spec fn projection_bounds(base: BoundsModel, relative: Option<(u64, u64)>) -> BoundsModel {
    match base {
        BoundsModel::Invalid => BoundsModel::Invalid,
        BoundsModel::Unknown => BoundsModel::Unknown,
        BoundsModel::Valid(b) => match relative {
            None => BoundsModel::Invalid,
            Some(r) => if b.1 - b.0 + 1 > u64::MAX {
                BoundsModel::Invalid
            } else if r.1 >= b.1 - b.0 + 1 {
                BoundsModel::Invalid
            } else {
                BoundsModel::Valid(r)
            },
        },
    }
}

/// The single bit an index selects, when it is a constant.
pub open spec fn index_ends(index: DriverExpr) -> Option<(u64, u64)> {
    match index.as_int_spec() {
        Some(i) => Some((i, i)),
        None => None,
    }
}

/// The bits a place selects of its object.
pub open spec fn place_bounds(widths: Map<usize, BoundModel>, place: DriverPlace) -> BoundsModel
    decreases place,
{
    match place {
        DriverPlace::Object(o) => object_bounds(widths, o.id),
        DriverPlace::Slice { base, range } => projection_bounds(
            place_bounds(widths, *base),
            static_ends(range@),
        ),
        DriverPlace::IndexedPartSelect { base, index, width } => projection_bounds(
            place_bounds(widths, *base),
            indexed_part_ends(index.as_int_spec(), bound_value(width@)),
        ),
        DriverPlace::Index { base, index } => if *base is Index {
            BoundsModel::Unknown
        } else {
            projection_bounds(place_bounds(widths, *base), index_ends(index))
        },
        _ => BoundsModel::Unknown,
    }
}

/// The place is an object or an expression, with nothing selected.
pub open spec fn is_unprojected(place: DriverPlace) -> bool {
    place is Object || place is Expr || place is Ident
}

/// The place is slices, all the way down to an unprojected place.
pub open spec fn is_symbolic_slice(place: DriverPlace) -> bool
    decreases place,
{
    match place {
        DriverPlace::Slice { base, .. } => is_unprojected(*base) || is_symbolic_slice(*base),
        _ => false,
    }
}

/// The width of the object a place is rooted at.
pub open spec fn root_width(widths: Map<usize, BoundModel>, place: DriverPlace) -> Option<BoundModel>
    decreases place,
{
    match place {
        DriverPlace::Object(o) => if widths.contains_key(o.id.0) {
            Some(widths[o.id.0])
        } else {
            None
        },
        DriverPlace::Slice { base, .. } => root_width(widths, *base),
        DriverPlace::IndexedPartSelect { base, .. } => root_width(widths, *base),
        DriverPlace::Index { base, .. } => root_width(widths, *base),
        _ => None,
    }
}

/// A projection found within bounds selects bits of its base only: its
/// ends are the projection's own, and its high end lies below the base's
/// width.
pub proof fn lemma_projection_within_base(base: BoundsModel, relative: Option<(u64, u64)>)
    ensures
        projection_bounds(base, relative) matches BoundsModel::Valid((l, h)) ==> (base matches BoundsModel::Valid(
            b,
        ) && relative == Some((l, h)) && h < b.1 - b.0 + 1),
{
}

/// A place found within bounds selects only bits of its object: its ends
/// are ordered and its high end lies below the known width of the object
/// the place is rooted at.
pub proof fn lemma_valid_bounds_within_object(widths: Map<usize, BoundModel>, place: DriverPlace)
    ensures
        place_bounds(widths, place) matches BoundsModel::Valid((l, h)) ==> l <= h && (root_width(
            widths,
            place,
        ) matches Some(w) && bound_value(w) matches Some(n) && h < n),
    decreases place,
{
    match place {
        DriverPlace::Slice { base, .. } => {
            lemma_valid_bounds_within_object(widths, *base);
        },
        DriverPlace::IndexedPartSelect { base, index, width } => {
            lemma_valid_bounds_within_object(widths, *base);
            match (index.as_int_spec(), bound_value(width@)) {
                (Some(i), Some(w)) => {
                    if w != 0 {
                        assert(i * w <= i * w + w - 1);
                    }
                },
                _ => {},
            }
        },
        DriverPlace::Index { base, .. } => {
            lemma_valid_bounds_within_object(widths, *base);
        },
        _ => {},
    }
}

/// Inside a loop over `loop_index` from `start` to `end`, the place selects
/// the loop's bit or part of its object, and the iterations stay within the
/// object's width.
pub open spec fn loop_projection_in_bounds(
    widths: Map<usize, BoundModel>,
    place: DriverPlace,
    loop_index: Seq<char>,
    start: BoundModel,
    end: BoundModel,
) -> bool
    decreases place,
{
    match place {
        DriverPlace::Index { base, index } => (match root_width(widths, *base) {
            Some(w) => covers_bit_array_spec(start, end, w),
            None => false,
        }) && loop_index_matches(start, loop_index, index),
        DriverPlace::IndexedPartSelect { base, index, width } => (match root_width(widths, *base) {
            Some(w) => covers_part_array_spec(start, end, w, width@),
            None => false,
        }) && loop_index_matches(start, loop_index, index),
        DriverPlace::Slice { base, .. } => loop_projection_in_bounds(
            widths,
            *base,
            loop_index,
            start,
            end,
        ),
        _ => false,
    }
}

/// Under a guard with a single loop, the loop keeps the place within its
/// object.
pub open spec fn symbolic_projection_proven(
    widths: Map<usize, BoundModel>,
    place: DriverPlace,
    frames: Seq<EirGuardFrame>,
) -> bool {
    count_loops(frames) == 1 && match last_loop(frames) {
        Some(EirGuardFrame::Loop { index, start, end, .. }) => loop_projection_in_bounds(
            widths,
            place,
            index@,
            crate::bound::eir_bound_model(start),
            crate::bound::eir_bound_model(end),
        ),
        _ => false,
    }
}

/// The place stays within its object: its bits are known to, or they are
/// unknown and it selects nothing, only slices, or what a loop proves in
/// bounds.
pub open spec fn within_bounds(
    widths: Map<usize, BoundModel>,
    place: DriverPlace,
    frames: Seq<EirGuardFrame>,
) -> bool {
    match place_bounds(widths, place) {
        BoundsModel::Valid(_) => true,
        BoundsModel::Unknown => is_unprojected(place) || is_symbolic_slice(place)
            || symbolic_projection_proven(widths, place, frames),
        BoundsModel::Invalid => false,
    }
}

/// The object place a place is rooted at, if it is rooted at one.
pub open spec fn root_place(place: DriverPlace) -> Option<DriverPlace>
    decreases place,
{
    match place {
        DriverPlace::Slice { base, .. } => root_place(*base),
        DriverPlace::IndexedPartSelect { base, .. } => root_place(*base),
        DriverPlace::Index { base, .. } => root_place(*base),
        DriverPlace::Object(_) => Some(place),
        _ => None,
    }
}

/// The name shown for the root of a place: its object, or the place itself.
pub open spec fn root_name_text(place: DriverPlace) -> Seq<char> {
    match root_place(place) {
        Some(r) => place_text(r),
        None => place_text(place),
    }
}

/// The diagnostic for a place outside its object, if it is.
pub open spec fn bounds_error(
    widths: Map<usize, BoundModel>,
    place: DriverPlace,
    frames: Seq<EirGuardFrame>,
    span: Span,
) -> Option<DiagnosticModel> {
    if within_bounds(widths, place, frames) {
        None
    } else {
        Some(
            plain_diag(
                ErrorSpec::DriverPlaceOutOfBounds(place_text(place), root_name_text(place)),
                span,
            ),
        )
    }
}

/// A place under a guard, asked whether it stays within its object.
pub struct PlaceBounds<'a> {
    pub place: &'a DriverPlace,
    pub guard: &'a EirGuard,
    pub objects: &'a DriverObjectTable,
}

impl<'a> PlaceBounds<'a> {
    /// The place, its guard, and the objects it may be rooted at.
    pub fn new(place: &'a DriverPlace, guard: &'a EirGuard, objects: &'a DriverObjectTable) -> (r:
        Self)
        ensures
            r.place == place,
            r.guard == guard,
            r.objects == objects,
    {
        PlaceBounds { place, guard, objects }
    }

    /// The place stays within its object.
    pub fn is_within_bounds(&self) -> (r: bool)
        requires
            self.objects.wf(),
        ensures
            r == within_bounds(self.objects@.widths, *self.place, self.guard.frames@),
    {
        match self.range_for(self.place) {
            BoundsResult::Valid(_) => true,
            BoundsResult::Unknown => {
                self.is_unprojected_place(self.place) || self.is_symbolic_slice_projection(
                    self.place,
                ) || self.symbolic_projection_is_proven()
            },
            BoundsResult::Invalid => false,
        }
    }

    /// The name shown for the root of the place.
    pub fn root_name(&self) -> (r: String)
        ensures
            r@ == root_name_text(*self.place),
    {
        match self.root_place(self.place) {
            Some(root) => root.display(),
            None => self.place.display(),
        }
    }

    /// The bits a place selects of its object.
    pub fn range_for(&self, place: &DriverPlace) -> (r: BoundsResult)
        requires
            self.objects.wf(),
        ensures
            bounds_model(r) == place_bounds(self.objects@.widths, *place),
            bounds_wf(r),
        decreases place,
    {
        match place {
            DriverPlace::Object(object) => self.object_range(object.id),
            DriverPlace::Slice { base, range } => {
                let base_range = self.range_for(base);
                let relative = range.static_range();
                self.apply_projection(base_range, relative)
            },
            DriverPlace::IndexedPartSelect { base, index, width } => {
                let base_range = self.range_for(base);
                let relative = DriverStaticRange::from_indexed_part(index, width);
                self.apply_projection(base_range, relative)
            },
            DriverPlace::Index { base, index } => {
                if let DriverPlace::Index { .. } = &**base {
                    return BoundsResult::Unknown;
                }
                let base_range = self.range_for(base);
                let relative = match index.as_int() {
                    Some(i) => Some(DriverStaticRange::new(i, i)),
                    None => None,
                };
                self.apply_projection(base_range, relative)
            },
            _ => BoundsResult::Unknown,
        }
    }

    /// The bits of an object.
    pub fn object_range(&self, id: ObjectId) -> (r: BoundsResult)
        requires
            self.objects.wf(),
        ensures
            bounds_model(r) == object_bounds(self.objects@.widths, id),
            bounds_wf(r),
    {
        let width = match self.objects.width(id) {
            Some(w) => match w.value() {
                Some(v) => v,
                None => {
                    return BoundsResult::Unknown;
                },
            },
            None => {
                return BoundsResult::Unknown;
            },
        };
        if width == 0 {
            return BoundsResult::Invalid;
        }
        BoundsResult::Valid(DriverStaticRange::new(0, width - 1))
    }

    /// The bits a projection selects of a base.
    pub fn apply_projection(&self, base: BoundsResult, relative: Option<DriverStaticRange>) -> (r:
        BoundsResult)
        requires
            bounds_wf(base),
            relative matches Some(x) ==> x.wf(),
        ensures
            bounds_model(r) == projection_bounds(
                bounds_model(base),
                match relative {
                    Some(x) => Some((x.low_spec(), x.high_spec())),
                    None => None,
                },
            ),
            bounds_wf(r),
    {
        match base {
            BoundsResult::Invalid => BoundsResult::Invalid,
            BoundsResult::Unknown => BoundsResult::Unknown,
            BoundsResult::Valid(b) => match relative {
                None => BoundsResult::Invalid,
                Some(x) => match b.checked_width() {
                    None => BoundsResult::Invalid,
                    Some(w) => if x.high() >= w {
                        BoundsResult::Invalid
                    } else {
                        BoundsResult::Valid(x)
                    },
                },
            },
        }
    }

    /// The place is an object or an expression, with nothing selected.
    pub fn is_unprojected_place(&self, place: &DriverPlace) -> (r: bool)
        ensures
            r == is_unprojected(*place),
    {
        match place {
            DriverPlace::Object(_) => true,
            DriverPlace::Expr(_) => true,
            DriverPlace::Ident(_) => true,
            _ => false,
        }
    }

    /// The place is slices, all the way down to an unprojected place.
    pub fn is_symbolic_slice_projection(&self, place: &DriverPlace) -> (r: bool)
        ensures
            r == is_symbolic_slice(*place),
        decreases place,
    {
        match place {
            DriverPlace::Slice { base, .. } => self.is_unprojected_place(base)
                || self.is_symbolic_slice_projection(base),
            _ => false,
        }
    }

    /// A single loop of the guard keeps the place within its object.
    pub fn symbolic_projection_is_proven(&self) -> (r: bool)
        requires
            self.objects.wf(),
        ensures
            r == symbolic_projection_proven(self.objects@.widths, *self.place, self.guard.frames@),
    {
        SymbolicProjectionProof::new(self.place, self.guard, self.objects).is_proven()
    }

    /// The object place a place is rooted at.
    pub fn root_place<'b>(&self, place: &'b DriverPlace) -> (r: Option<&'b DriverPlace>)
        ensures
            match root_place(*place) {
                Some(p) => r == Some(&p),
                None => r is None,
            },
    {
        let mut current = place;
        loop
            invariant
                root_place(*current) == root_place(*place),
            decreases current,
        {
            match current {
                DriverPlace::Slice { base, .. } => {
                    current = base;
                },
                DriverPlace::IndexedPartSelect { base, .. } => {
                    current = base;
                },
                DriverPlace::Index { base, .. } => {
                    current = base;
                },
                DriverPlace::Object(_) => {
                    return Some(current);
                },
                _ => {
                    return None;
                },
            }
        }
    }
}

/// A place under a guard, asked whether a single loop of the guard keeps
/// it within its object.
pub struct SymbolicProjectionProof<'a> {
    pub place: &'a DriverPlace,
    pub guard: &'a EirGuard,
    pub objects: &'a DriverObjectTable,
}

impl<'a> SymbolicProjectionProof<'a> {
    /// The place, its guard, and the objects.
    pub fn new(place: &'a DriverPlace, guard: &'a EirGuard, objects: &'a DriverObjectTable) -> (r:
        Self)
        ensures
            r.place == place,
            r.guard == guard,
            r.objects == objects,
    {
        SymbolicProjectionProof { place, guard, objects }
    }

    /// The guard has a single loop and it keeps the place within its
    /// object.
    pub fn is_proven(&self) -> (r: bool)
        requires
            self.objects.wf(),
        ensures
            r == symbolic_projection_proven(self.objects@.widths, *self.place, self.guard.frames@),
    {
        let loop_bounds = match DriverLoopGuard::new(self.guard).single_loop_bounds() {
            Some(b) => b,
            None => {
                return false;
            },
        };
        SymbolicLoopProjection::new(self.place, loop_bounds, self.objects).is_in_bounds()
    }
}

/// A place inside a loop, asked whether the loop keeps it within its
/// object.
pub struct SymbolicLoopProjection<'a> {
    pub place: &'a DriverPlace,
    pub loop_bounds: DriverLoopBounds<'a>,
    pub objects: &'a DriverObjectTable,
}

impl<'a> SymbolicLoopProjection<'a> {
    /// The place, the loop's bounds, and the objects.
    pub fn new(
        place: &'a DriverPlace,
        loop_bounds: DriverLoopBounds<'a>,
        objects: &'a DriverObjectTable,
    ) -> (r: Self)
        ensures
            r.place == place,
            r.loop_bounds == loop_bounds,
            r.objects == objects,
    {
        SymbolicLoopProjection { place, loop_bounds, objects }
    }

    /// The place selects the loop's bit or part of its object and the
    /// iterations stay within the object's width.
    pub fn is_in_bounds(&self) -> (r: bool)
        requires
            self.objects.wf(),
        ensures
            r == loop_projection_in_bounds(
                self.objects@.widths,
                *self.place,
                self.loop_bounds.loop_index@,
                self.loop_bounds.start@,
                self.loop_bounds.end@,
            ),
        decreases self.place,
    {
        match self.place {
            DriverPlace::Index { base, index } => {
                (match self.base_width(base) {
                    Some(w) => self.loop_bounds.covers_bit_array(w),
                    None => false,
                }) && self.loop_bounds.index_matches(index)
            },
            DriverPlace::IndexedPartSelect { base, index, width } => {
                (match self.base_width(base) {
                    Some(w) => self.loop_bounds.covers_part_array(w, width),
                    None => false,
                }) && self.loop_bounds.index_matches(index)
            },
            DriverPlace::Slice { base, .. } => {
                let inner = SymbolicLoopProjection {
                    place: base,
                    loop_bounds: DriverLoopBounds {
                        loop_index: self.loop_bounds.loop_index,
                        start: self.loop_bounds.start.copy(),
                        end: self.loop_bounds.end.copy(),
                    },
                    objects: self.objects,
                };
                inner.is_in_bounds()
            },
            _ => false,
        }
    }

    /// The width of the object a place is rooted at.
    pub fn base_width(&self, place: &DriverPlace) -> (r: Option<&'a DriverBound>)
        requires
            self.objects.wf(),
        ensures
            match root_width(self.objects@.widths, *place) {
                Some(w) => r matches Some(b) && b@ == w,
                None => r is None,
            },
        decreases place,
    {
        match place {
            DriverPlace::Object(object) => self.objects.width(object.id),
            DriverPlace::Slice { base, .. } => self.base_width(base),
            DriverPlace::IndexedPartSelect { base, .. } => self.base_width(base),
            DriverPlace::Index { base, .. } => self.base_width(base),
            _ => None,
        }
    }
}

/// Checks that places stay within their objects.
pub struct DriverBoundsChecker<'a> {
    pub objects: &'a DriverObjectTable,
}

impl<'a> DriverBoundsChecker<'a> {
    /// A checker over the given objects.
    pub fn new(objects: &'a DriverObjectTable) -> (r: Self)
        ensures
            r.objects == objects,
    {
        DriverBoundsChecker { objects }
    }

    /// The place stays within its object; otherwise the diagnostic naming
    /// the place and its root.
    pub fn check_place(&self, place: &DriverPlace, guard: &EirGuard, origin: &EirOrigin) -> (r: Result<
        (),
        DriverDiagnostic,
    >)
        requires
            self.objects.wf(),
        ensures
            match bounds_error(self.objects@.widths, *place, guard.frames@, origin.span) {
                Some(d) => r matches Err(e) && diag_model(e) == d,
                None => r is Ok,
            },
    {
        let checker = PlaceBounds::new(place, guard, self.objects);
        if checker.is_within_bounds() {
            return Ok(());
        }
        let diag = DriverDiagnostic::driver_error(
            DriverError::DriverPlaceOutOfBounds { place: place.display(), root: checker.root_name() },
            origin.span(),
        );
        proof {
            assert(related_views(diag.related@) =~= Seq::<(Span, Seq<char>)>::empty());
        }
        Err(diag)
    }
}

// ---------------------------------------------------------------------------
// Conflicts between drives
// ---------------------------------------------------------------------------

/// When a drive with the given value drives its place.
pub open spec fn value_activity(v: Option<EirExpr>) -> ActivityModel {
    match v {
        Some(e) => crate::tristate::activity_spec(e),
        None => ActivityModel::Active(Some(FormulaTree::True)),
    }
}

impl DriveActivity {
    /// When the drive drives its place.
    pub fn from_drive(drive: &DriveFact) -> (r: Self)
        ensures
            r@ == value_activity(drive.value),
    {
        DriveActivityClassifier::new(drive.value()).classify()
    }
}

/// Two drives of overlapping places, asked whether they can drive at once.
pub struct DriveConflict<'a> {
    pub previous: &'a DriveFact,
    pub current: &'a DriveFact,
}

impl<'a> DriveConflict<'a> {
    /// The earlier and the later drive.
    pub fn new(previous: &'a DriveFact, current: &'a DriveFact) -> (r: Self)
        ensures
            r.previous == previous,
            r.current == current,
    {
        DriveConflict { previous, current }
    }

    /// The two drives can be active at once.
    pub fn can_conflict(&self) -> (r: bool)
        ensures
            r == activities_overlap(
                value_activity(self.previous.value),
                value_activity(self.current.value),
            ),
    {
        DriveActivity::from_drive(self.previous).can_overlap(&DriveActivity::from_drive(self.current))
    }
}

/// An earlier drive conflicts with a later one: same module, places that
/// may overlap, guards that do not exclude each other, and values that can
/// drive at once.
pub open spec fn conflict_pred(claim: DriveFact, drive: DriveFact) -> bool {
    &&& claim.module@ == drive.module@
    &&& places_may_overlap(claim.target, drive.target)
    &&& !guards_exclusive(claim.guard.frames@, drive.guard.frames@)
    &&& activities_overlap(value_activity(claim.value), value_activity(drive.value))
}

/// The position of the first claim that conflicts with the drive.
pub open spec fn first_conflict(claims: Seq<DriveFact>, drive: DriveFact) -> Option<int>
    decreases claims.len(),
{
    if claims.len() == 0 {
        None
    } else if conflict_pred(claims[0], drive) {
        Some(0)
    } else {
        match first_conflict(claims.drop_first(), drive) {
            Some(k) => Some(k + 1),
            None => None,
        }
    }
}

/// The diagnostic for the drive at `j` conflicting with an earlier drive.
pub open spec fn conflict_error(drives: Seq<DriveFact>, j: int) -> Option<DiagnosticModel> {
    match first_conflict(drives.take(j), drives[j]) {
        Some(k) => Some(
            DiagnosticModel {
                kind: ErrorSpec::DuplicateHardwareDriver(place_text(drives[j].target)),
                span: drives[j].origin.span,
                related: conflict_related_spec(
                    drives[k].origin,
                    drives[j].origin,
                    "previous driver claim"@,
                    "conflicting driver claim"@,
                ),
            },
        ),
        None => None,
    }
}

/// The place whose bounds a drive is checked against: its target, or the
/// storage a next drive gives a value.
pub open spec fn drive_bounds_target(drive: DriveFact) -> DriverPlace {
    match drive.effect {
        DriveEffect::Continuous => drive.target,
        DriveEffect::Next { storage_target } => *storage_target,
    }
}

/// The first thing wrong with the drive at `j`, checked in order: its next
/// target, its continuous target, its bounds, conflicts with earlier drives.
pub open spec fn drive_error(
    creates: Seq<CreateFact>,
    widths: Map<usize, BoundModel>,
    drives: Seq<DriveFact>,
    j: int,
    accepted: Seq<DriveFact>,
) -> Option<DiagnosticModel> {
    match next_target_error(creates, drives[j], accepted) {
        Some(d) => Some(d),
        None => match continuous_target_error(creates, drives[j]) {
            Some(d) => Some(d),
            None => match bounds_error(
                widths,
                drive_bounds_target(drives[j]),
                drives[j].guard.frames@,
                drives[j].origin.span,
            ) {
                Some(d) => Some(d),
                None => conflict_error(drives, j),
            },
        },
    }
}

/// The diagnostics of the first `n` drives, in order, and the next drives
/// among them that were accepted.
pub open spec fn drive_check_state(
    creates: Seq<CreateFact>,
    widths: Map<usize, BoundModel>,
    drives: Seq<DriveFact>,
    n: int,
) -> (Seq<DiagnosticModel>, Seq<DriveFact>)
    decreases n,
{
    if n <= 0 {
        (Seq::empty(), Seq::empty())
    } else {
        let prev = drive_check_state(creates, widths, drives, n - 1);
        match drive_error(creates, widths, drives, n - 1, prev.1) {
            Some(d) => (prev.0.push(d), prev.1),
            None => (prev.0, if drives[n - 1].effect is Next {
                prev.1.push(drives[n - 1])
            } else {
                prev.1
            }),
        }
    }
}

/// The diagnostics of reads outside their objects, in order.
pub open spec fn read_errors(widths: Map<usize, BoundModel>, reads: Seq<ReadFact>) -> Seq<
    DiagnosticModel,
>
    decreases reads.len(),
{
    if reads.len() == 0 {
        Seq::empty()
    } else {
        let rest = read_errors(widths, reads.drop_last());
        let r = reads.last();
        match bounds_error(widths, r.source, r.guard.frames@, r.origin.span) {
            Some(d) => rest.push(d),
            None => rest,
        }
    }
}

/// The drives a list of drive references stands for.
pub open spec fn drive_values(v: Seq<&DriveFact>) -> Seq<DriveFact> {
    v.map_values(|d: &DriveFact| *d)
}

/// Runs the driver checks over the facts of a design.
pub struct DriverDrcChecker<'a> {
    pub eir: &'a EirDesign,
    pub facts: &'a DriverFacts,
    pub errors: Vec<DriverDiagnostic>,
}

impl<'a> DriverDrcChecker<'a> {
    /// A checker of the facts of a design, with no diagnostics yet.
    pub fn new(eir: &'a EirDesign, facts: &'a DriverFacts) -> (r: Self)
        ensures
            r.eir == eir,
            r.facts == facts,
            r.errors@.len() == 0,
    {
        DriverDrcChecker { eir, facts, errors: Vec::new() }
    }

    /// Checks every drive in order: its next target, its continuous target,
    /// its bounds and conflicts with earlier drives, recording the first
    /// diagnostic of each.
    pub fn check_drive_facts(&mut self)
        requires
            old(self).facts.objects.wf(),
        ensures
            final(self).facts == old(self).facts,
            final(self).eir == old(self).eir,
            diag_models(final(self).errors@) == diag_models(old(self).errors@) + drive_check_state(
                old(self).facts.creates@,
                old(self).facts.objects@.widths,
                old(self).facts.drives@,
                old(self).facts.drives@.len() as int,
            ).0,
    {
        let ghost creates = self.facts.creates@;
        let ghost widths = self.facts.objects@.widths;
        let ghost drives = self.facts.drives@;
        let ghost start = diag_models(self.errors@);
        let facts = self.facts;
        let mut accepted_nexts: Vec<&DriveFact> = Vec::new();
        let mut index: usize = 0;
        proof {
            assert(drive_values(accepted_nexts@) =~= Seq::<DriveFact>::empty());
            assert(start + Seq::<DiagnosticModel>::empty() =~= start);
        }
        while index < facts.drives.len()
            invariant
                facts == self.facts,
                facts == old(self).facts,
                self.eir == old(self).eir,
                facts.objects.wf(),
                creates == facts.creates@,
                widths == facts.objects@.widths,
                drives == facts.drives@,
                start == diag_models(old(self).errors@),
                index <= drives.len(),
                diag_models(self.errors@) == start + drive_check_state(
                    creates,
                    widths,
                    drives,
                    index as int,
                ).0,
                drive_values(accepted_nexts@) == drive_check_state(
                    creates,
                    widths,
                    drives,
                    index as int,
                ).1,
            decreases drives.len() - index,
        {
            let drive = &facts.drives[index];
            let ghost prev = drive_check_state(creates, widths, drives, index as int);
            let ghost before = self.errors@;
            let error = self.check_drive(index, drive, &accepted_nexts);
            proof {
                assert(*drive == drives[index as int]);
            }
            match error {
                Some(e) => {
                    self.errors.push(e);
                    proof {
                        assert(diag_models(self.errors@) =~= diag_models(before).push(diag_model(e)));
                    }
                },
                None => {
                    if let DriveEffect::Next { .. } = &drive.effect {
                        let ghost acc = accepted_nexts@;
                        accepted_nexts.push(drive);
                        proof {
                            assert(drive_values(accepted_nexts@) =~= drive_values(acc).push(*drive));
                        }
                    }
                },
            }
            index = index + 1;
        }
    }

    /// The first diagnostic of one drive, checked in order.
    fn check_drive(&self, index: usize, drive: &DriveFact, accepted_nexts: &Vec<&DriveFact>) -> (r:
        Option<DriverDiagnostic>)
        requires
            self.facts.objects.wf(),
            index < self.facts.drives@.len(),
            *drive == self.facts.drives@[index as int],
        ensures
            opt_diag(r) == drive_error(
                self.facts.creates@,
                self.facts.objects@.widths,
                self.facts.drives@,
                index as int,
                drive_values(accepted_nexts@),
            ),
    {
        if let Some(e) = self.check_next_target(drive, accepted_nexts.as_slice()) {
            return Some(e);
        }
        if let Some(e) = self.check_continuous_target(drive) {
            return Some(e);
        }
        if let Some(e) = self.check_drive_bounds(drive) {
            return Some(e);
        }
        self.check_drive_conflict(index, drive)
    }

    /// Checks the bounds of every read, recording a diagnostic for each
    /// read outside its object.
    pub fn check_read_facts(&mut self)
        requires
            old(self).facts.objects.wf(),
        ensures
            final(self).facts == old(self).facts,
            final(self).eir == old(self).eir,
            diag_models(final(self).errors@) == diag_models(old(self).errors@) + read_errors(
                old(self).facts.objects@.widths,
                old(self).facts.reads@,
            ),
    {
        let ghost widths = self.facts.objects@.widths;
        let ghost reads = self.facts.reads@;
        let ghost start = diag_models(self.errors@);
        let facts = self.facts;
        let mut i: usize = 0;
        proof {
            assert(reads.take(0) =~= Seq::<ReadFact>::empty());
            assert(start + Seq::<DiagnosticModel>::empty() =~= start);
        }
        while i < facts.reads.len()
            invariant
                facts == self.facts,
                facts == old(self).facts,
                self.eir == old(self).eir,
                facts.objects.wf(),
                widths == facts.objects@.widths,
                reads == facts.reads@,
                start == diag_models(old(self).errors@),
                i <= reads.len(),
                diag_models(self.errors@) == start + read_errors(widths, reads.take(i as int)),
            decreases reads.len() - i,
        {
            proof {
                assert(reads.take(i + 1).drop_last() =~= reads.take(i as int));
                assert(reads.take(i + 1).last() == reads[i as int]);
            }
            let ghost before = self.errors@;
            if let Some(e) = self.check_read_bounds(&facts.reads[i]) {
                self.errors.push(e);
                proof {
                    assert(diag_models(self.errors@) =~= diag_models(before).push(diag_model(e)));
                }
            }
            i = i + 1;
        }
        proof {
            assert(reads.take(reads.len() as int) =~= reads);
        }
    }

    /// What is wrong with the target of a next drive.
    pub fn check_next_target(&self, drive: &DriveFact, accepted_nexts: &[&DriveFact]) -> (r: Option<
        DriverDiagnostic,
    >)
        ensures
            opt_diag(r) == next_target_error(
                self.facts.creates@,
                *drive,
                drive_values(accepted_nexts@),
            ),
    {
        let storage_target = match &drive.effect {
            DriveEffect::Next { storage_target } => storage_target,
            DriveEffect::Continuous => {
                return None;
            },
        };
        if !self.is_storage_target(drive.module.as_str(), storage_target) {
            let d = DriverDiagnostic::driver_error(
                DriverError::NextTargetIsNotReg { name: storage_target.display() },
                drive.origin.span(),
            );
            proof {
                assert(related_views(d.related@) =~= Seq::<(Span, Seq<char>)>::empty());
            }
            return Some(d);
        }
        let ghost acc = drive_values(accepted_nexts@);
        let mut i: usize = 0;
        proof {
            assert(acc.skip(0) =~= acc);
        }
        while i < accepted_nexts.len()
            invariant
                i <= accepted_nexts.len(),
                acc == drive_values(accepted_nexts@),
                acc.len() == accepted_nexts.len(),
                drive.effect matches DriveEffect::Next { storage_target: t } && *storage_target == t,
                is_storage(self.facts.creates@, drive.module@, **storage_target),
                first_next_match(acc, *drive, **storage_target) == match first_next_match(
                    acc.skip(i as int),
                    *drive,
                    **storage_target,
                ) {
                    Some(k) => Some(k + i),
                    None => None::<int>,
                },
            decreases accepted_nexts.len() - i,
        {
            let claim = accepted_nexts[i];
            proof {
                assert(acc.skip(i as int)[0] == *claim);
                assert(acc.skip(i as int).drop_first() =~= acc.skip(i + 1));
            }
            let matches = str_eq(claim.module.as_str(), drive.module.as_str()) && (match &claim.effect {
                DriveEffect::Next { storage_target: previous_target } => previous_target.same_as(
                    storage_target,
                ),
                DriveEffect::Continuous => false,
            }) && claim.guard.same_as(&drive.guard);
            if matches {
                let related = conflict_related(
                    &claim.origin,
                    &drive.origin,
                    "previous next driver claim",
                    "conflicting next driver claim",
                );
                let d = DriverDiagnostic::driver_error_with_related(
                    DriverError::DuplicateNextDriver { name: storage_target.display() },
                    drive.origin.span(),
                    related,
                );
                proof {
                    assert(acc[i as int] == *claim);
                    assert(next_claim_matches(*claim, *drive, **storage_target));
                    assert(first_next_match(acc.skip(i as int), *drive, **storage_target) == Some(
                        0int,
                    ));
                    assert(first_next_match(acc, *drive, **storage_target) == Some(i as int));
                }
                return Some(d);
            }
            i = i + 1;
        }
        proof {
            assert(acc.skip(accepted_nexts.len() as int) =~= Seq::<DriveFact>::empty());
        }
        None
    }

    /// What is wrong with the target of a continuous drive.
    pub fn check_continuous_target(&self, drive: &DriveFact) -> (r: Option<DriverDiagnostic>)
        ensures
            opt_diag(r) == continuous_target_error(self.facts.creates@, *drive),
    {
        if let DriveEffect::Next { .. } = &drive.effect {
            return None;
        }
        let name = match self.storage_root_name(drive.module.as_str(), &drive.target) {
            Some(n) => n,
            None => {
                return None;
            },
        };
        let d = DriverDiagnostic::driver_error(
            DriverError::ContinuousDriveTargetIsReg { name },
            drive.origin.span(),
        );
        proof {
            assert(related_views(d.related@) =~= Seq::<(Span, Seq<char>)>::empty());
        }
        Some(d)
    }

    /// Whether the drive's target, or the storage a next drive gives a
    /// value, lies outside its object.
    pub fn check_drive_bounds(&self, drive: &DriveFact) -> (r: Option<DriverDiagnostic>)
        requires
            self.facts.objects.wf(),
        ensures
            opt_diag(r) == bounds_error(
                self.facts.objects@.widths,
                drive_bounds_target(*drive),
                drive.guard.frames@,
                drive.origin.span,
            ),
    {
        let target = match &drive.effect {
            DriveEffect::Continuous => &drive.target,
            DriveEffect::Next { storage_target } => &**storage_target,
        };
        match DriverBoundsChecker::new(&self.facts.objects).check_place(
            target,
            &drive.guard,
            &drive.origin,
        ) {
            Ok(()) => None,
            Err(e) => Some(e),
        }
    }

    /// An earlier drive that conflicts with the drive at `index`.
    pub fn check_drive_conflict(&self, index: usize, drive: &DriveFact) -> (r: Option<
        DriverDiagnostic,
    >)
        requires
            index < self.facts.drives@.len(),
            *drive == self.facts.drives@[index as int],
        ensures
            opt_diag(r) == conflict_error(self.facts.drives@, index as int),
    {
        let ghost drives = self.facts.drives@;
        let ghost claims = drives.take(index as int);
        let mut i: usize = 0;
        proof {
            assert(claims.skip(0) =~= claims);
        }
        while i < index
            invariant
                i <= index,
                index < drives.len(),
                drives == self.facts.drives@,
                claims == drives.take(index as int),
                *drive == drives[index as int],
                first_conflict(claims, *drive) == match first_conflict(
                    claims.skip(i as int),
                    *drive,
                ) {
                    Some(k) => Some(k + i),
                    None => None::<int>,
                },
            decreases index - i,
        {
            let claim = &self.facts.drives[i];
            proof {
                assert(claims.skip(i as int)[0] == *claim);
                assert(claims.skip(i as int).drop_first() =~= claims.skip(i + 1));
            }
            let conflicts = str_eq(claim.module.as_str(), drive.module.as_str())
                && claim.target.overlaps(&drive.target) && !DriverGuardSet::new(
                &claim.guard,
                &drive.guard,
            ).is_mutually_exclusive() && DriveConflict::new(claim, drive).can_conflict();
            if conflicts {
                let related = conflict_related(
                    &claim.origin,
                    &drive.origin,
                    "previous driver claim",
                    "conflicting driver claim",
                );
                let d = DriverDiagnostic::driver_error_with_related(
                    DriverError::DuplicateHardwareDriver { name: drive.target.display() },
                    drive.origin.span(),
                    related,
                );
                proof {
                    assert(drives[i as int] == claims[i as int]);
                }
                return Some(d);
            }
            i = i + 1;
        }
        proof {
            assert(claims.skip(index as int) =~= Seq::<DriveFact>::empty());
        }
        None
    }

    /// Whether a read lies outside its object.
    pub fn check_read_bounds(&self, read: &ReadFact) -> (r: Option<DriverDiagnostic>)
        requires
            self.facts.objects.wf(),
        ensures
            opt_diag(r) == bounds_error(
                self.facts.objects@.widths,
                read.source,
                read.guard.frames@,
                read.origin.span,
            ),
    {
        match DriverBoundsChecker::new(&self.facts.objects).check_place(
            &read.source,
            &read.guard,
            &read.origin,
        ) {
            Ok(()) => None,
            Err(e) => Some(e),
        }
    }

    /// The place is a storage object created in the module.
    pub fn is_storage_target(&self, module: &str, target: &DriverPlace) -> (r: bool)
        ensures
            r == is_storage(self.facts.creates@, module@, *target),
    {
        let object = match target {
            DriverPlace::Object(o) => o,
            _ => {
                return false;
            },
        };
        let creates = &self.facts.creates;
        let mut k: usize = 0;
        while k < creates.len()
            invariant
                k <= creates.len(),
                creates@ == self.facts.creates@,
                *target matches DriverPlace::Object(o) && o.id == object.id,
                forall|j: int|
                    0 <= j < k ==> !((#[trigger] creates@[j]).module@ == module@ && creates@[j].object_id
                        == object.id && creates@[j].kind == CreateKind::Storage),
            decreases creates.len() - k,
        {
            let c = &creates[k];
            if str_eq(c.module.as_str(), module) && c.object_id == object.id && c.kind
                == CreateKind::Storage {
                proof {
                    assert(creates@[k as int] == *c);
                }
                return true;
            }
            k = k + 1;
        }
        false
    }

    /// The name of the storage object of the module a place is rooted at.
    pub fn storage_root_name(&self, module: &str, target: &DriverPlace) -> (r: Option<String>)
        ensures
            match storage_root(self.facts.creates@, module@, *target) {
                Some(n) => r matches Some(s) && s@ == n,
                None => r is None,
            },
        decreases target,
    {
        match target {
            DriverPlace::Object(object) => {
                if self.is_storage_target(module, target) {
                    Some(object.name.clone())
                } else {
                    None
                }
            },
            DriverPlace::Slice { base, .. } => self.storage_root_name(module, base),
            DriverPlace::IndexedPartSelect { base, .. } => self.storage_root_name(module, base),
            DriverPlace::Index { base, .. } => self.storage_root_name(module, base),
            _ => None,
        }
    }
}

// ---------------------------------------------------------------------------
// What a clean check guarantees
// ---------------------------------------------------------------------------

proof fn lemma_first_conflict_none(claims: Seq<DriveFact>, drive: DriveFact, k: int)
    requires
        first_conflict(claims, drive) is None,
        0 <= k < claims.len(),
    ensures
        !conflict_pred(claims[k], drive),
    decreases claims.len(),
{
    if k > 0 {
        if !conflict_pred(claims[0], drive) {
            lemma_first_conflict_none(claims.drop_first(), drive, k - 1);
            assert(claims.drop_first()[k - 1] == claims[k]);
        }
    }
}

proof fn lemma_errors_grow(
    creates: Seq<CreateFact>,
    widths: Map<usize, BoundModel>,
    drives: Seq<DriveFact>,
    m: int,
    n: int,
)
    requires
        0 <= m <= n,
    ensures
        drive_check_state(creates, widths, drives, m).0.len() <= drive_check_state(
            creates,
            widths,
            drives,
            n,
        ).0.len(),
    decreases n - m,
{
    if m < n {
        lemma_errors_grow(creates, widths, drives, m, n - 1);
    }
}

/// Drives that pass the checks never conflict: where checking the drives
/// of a design gives no diagnostic, any two drives of one module whose
/// places may overlap have guards that exclude each other or values that
/// never drive at once.
pub proof fn lemma_clean_drives_never_conflict(
    creates: Seq<CreateFact>,
    widths: Map<usize, BoundModel>,
    drives: Seq<DriveFact>,
    i: int,
    j: int,
)
    requires
        drive_check_state(creates, widths, drives, drives.len() as int).0.len() == 0,
        0 <= i < j < drives.len(),
        drives[i].module@ == drives[j].module@,
        places_may_overlap(drives[i].target, drives[j].target),
    ensures
        guards_exclusive(drives[i].guard.frames@, drives[j].guard.frames@) || !activities_overlap(
            value_activity(drives[i].value),
            value_activity(drives[j].value),
        ),
{
    lemma_errors_grow(creates, widths, drives, j + 1, drives.len() as int);
    lemma_errors_grow(creates, widths, drives, j, j + 1);
    let prev = drive_check_state(creates, widths, drives, j);
    assert(drive_error(creates, widths, drives, j, prev.1) is None);
    assert(conflict_error(drives, j) is None);
    lemma_first_conflict_none(drives.take(j), drives[j], i);
    assert(drives.take(j)[i] == drives[i]);
}

/// Drives that pass the checks stay within their objects: where checking
/// the drives gives no diagnostic, every drive's target (or, for a next
/// drive, its storage) is within bounds.
pub proof fn lemma_clean_drives_within_bounds(
    creates: Seq<CreateFact>,
    widths: Map<usize, BoundModel>,
    drives: Seq<DriveFact>,
    j: int,
)
    requires
        drive_check_state(creates, widths, drives, drives.len() as int).0.len() == 0,
        0 <= j < drives.len(),
    ensures
        within_bounds(widths, drive_bounds_target(drives[j]), drives[j].guard.frames@),
{
    lemma_errors_grow(creates, widths, drives, j + 1, drives.len() as int);
    let prev = drive_check_state(creates, widths, drives, j);
    assert(drive_error(creates, widths, drives, j, prev.1) is None);
}

} // verus!
