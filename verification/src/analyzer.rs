//! The single-pass driver analysis: resolves each drive and read of a
//! design, checks it as it goes against the drives accepted before it, and
//! then checks that everything that must be driven is.
use crate::collect::{
    DriverFactsCollector, created_from, create_kind, design_table, index_design, next_name,
    next_place, place_error_model,
};
use crate::completeness::{
    DriverCompletenessChecker, DriverReadCompletenessChecker, DriverSignalActivityChecker,
    activity_errors, out_errors, undriven_read_errors,
};
use crate::drc::{
    DiagnosticModel, DriverBoundsChecker, DriverDiagnostic, DriverError, ErrorSpec, bounds_error,
    diag_model, diag_models, plain_diag,
};
use crate::eir::{EirDesign, EirDrive, EirDriveKind, EirObject, EirObjectKind, EirRead};
use crate::facts::{
    CreateFact, CreateKind, DriveEffect, DriveFact, DriverFacts, EirOrigin, ReadFact, same_origin,
};
use crate::guard::{EirGuard, EirGuardFrame, Span, frames_equal, guards_exclusive};
use crate::overlap::places_may_overlap;
use crate::place::{
    DriverExpr, DriverObjectTable, DriverPlace, DriverPlaceResolver, TableModel, lemma_same_place_symmetric,
    place_text, resolve_error, resolves_to, same_place,
};
use crate::summary::{CellSummaryCollector, lemma_table_summaries, summaries_are};
use crate::text::str_eq;
use vstd::prelude::*;

verus! {

// ---------------------------------------------------------------------------
// What the analysis finds
// ---------------------------------------------------------------------------

/// The (module, name) keys of the storage objects, in order.
pub open spec fn storage_keys(objects: Seq<EirObject>) -> Seq<(Seq<char>, Seq<char>)>
    decreases objects.len(),
{
    if objects.len() == 0 {
        Seq::empty()
    } else {
        let rest = storage_keys(objects.drop_last());
        let o = objects.last();
        if o.kind == EirObjectKind::Storage {
            rest.push((o.module@, o.name@))
        } else {
            rest
        }
    }
}

/// A claim on the next value of storage: module, place, scopes and origin.
pub struct NextModel {
    pub module: Seq<char>,
    pub target: DriverPlace,
    pub frames: Seq<EirGuardFrame>,
    pub origin: EirOrigin,
}

/// The position of the first earlier accepted drive, from `k` on, that
/// conflicts with a drive of `target` in `module` under `frames`: same
/// module, places that may share a bit, guards that may hold together.
pub open spec fn first_conflict(
    facts: Seq<DriveFact>,
    module: Seq<char>,
    target: DriverPlace,
    frames: Seq<EirGuardFrame>,
    k: int,
) -> Option<int>
    decreases facts.len() - k,
{
    if k < 0 || k >= facts.len() {
        None
    } else if facts[k].module@ == module && places_may_overlap(facts[k].target, target)
        && !guards_exclusive(facts[k].guard.frames@, frames) {
        Some(k)
    } else {
        first_conflict(facts, module, target, frames, k + 1)
    }
}

/// What is wrong with driving `target`, given the drives accepted before:
/// the place leaves its object, or it conflicts with an earlier drive.
pub open spec fn record_drive_error(
    widths: Map<usize, crate::bound::BoundModel>,
    facts: Seq<DriveFact>,
    module: Seq<char>,
    target: DriverPlace,
    frames: Seq<EirGuardFrame>,
    span: Span,
) -> Option<DiagnosticModel> {
    match bounds_error(widths, target, frames, span) {
        Some(e) => Some(e),
        None => match first_conflict(facts, module, target, frames, 0) {
            Some(i) => Some(
                DiagnosticModel {
                    kind: ErrorSpec::DuplicateHardwareDriver(place_text(target)),
                    span,
                    related: seq![
                        (facts[i].origin.span, "previous driver claim"@),
                        (span, "conflicting driver claim"@),
                    ],
                },
            ),
            None => None,
        },
    }
}

/// The position of the first earlier claim, from `k` on, on the next value
/// of the same place in the same module under the same scopes.
pub open spec fn first_next(
    nexts: Seq<NextModel>,
    module: Seq<char>,
    target: DriverPlace,
    frames: Seq<EirGuardFrame>,
    k: int,
) -> Option<int>
    decreases nexts.len() - k,
{
    if k < 0 || k >= nexts.len() {
        None
    } else if nexts[k].module == module && same_place(nexts[k].target, target) && frames_equal(
        nexts[k].frames,
        frames,
    ) {
        Some(k)
    } else {
        first_next(nexts, module, target, frames, k + 1)
    }
}

/// `f` is the accepted fact of drive `d` of `target`; a next-value drive
/// records the storage place.
pub open spec fn fact_for(f: DriveFact, d: EirDrive, target: DriverPlace, storage: Option<DriverPlace>) -> bool {
    fact_parts(f, d.module@, target, storage, d.guard.frames@, d.origin)
}

/// `f` is the fact of a drive in `module` of `target` under `frames` from
/// `origin`, with no value; a next-value drive records the storage place.
pub open spec fn fact_parts(
    f: DriveFact,
    module: Seq<char>,
    target: DriverPlace,
    storage: Option<DriverPlace>,
    frames: Seq<EirGuardFrame>,
    origin: EirOrigin,
) -> bool {
    &&& f.module@ == module
    &&& same_place(f.target, target)
    &&& f.value is None
    &&& frames_equal(f.guard.frames@, frames)
    &&& same_origin(f.origin, origin)
    &&& match storage {
        None => f.effect is Continuous,
        Some(s) => f.effect matches DriveEffect::Next { storage_target } && same_place(
            *storage_target,
            s,
        ),
    }
}

/// Where the analysis of the drives stands: the diagnostics so far, the
/// next-value claims, how many drives were accepted, and whether each
/// accepted drive has its fact.
pub struct DriveAnalysis {
    pub errors: Seq<DiagnosticModel>,
    pub nexts: Seq<NextModel>,
    pub accepted: int,
    pub consistent: bool,
}

/// The analysis after accepting a drive of `target` as fact number
/// `state.accepted`.
pub open spec fn accept(
    state: DriveAnalysis,
    facts: Seq<DriveFact>,
    d: EirDrive,
    target: DriverPlace,
    storage: Option<DriverPlace>,
) -> DriveAnalysis {
    DriveAnalysis {
        accepted: state.accepted + 1,
        consistent: state.consistent && 0 <= state.accepted < facts.len() && fact_for(
            facts[state.accepted],
            d,
            target,
            storage,
        ),
        ..state
    }
}

/// The analysis after one more drive, resolved to `w` where it resolves:
/// the target, and for a next-value drive the place of the next value.
pub open spec fn analysis_step(
    table: TableModel,
    regs: Seq<(Seq<char>, Seq<char>)>,
    state: DriveAnalysis,
    facts: Seq<DriveFact>,
    d: EirDrive,
    w: Option<(DriverPlace, DriverPlace)>,
) -> DriveAnalysis {
    let span = d.origin.span;
    let frames = d.guard.frames@;
    let prior = facts.take(state.accepted);
    match place_error_model(table, d.module@, d.target, span) {
        Some(e) => DriveAnalysis { errors: state.errors.push(e), ..state },
        None => match w {
            None => DriveAnalysis { consistent: false, ..state },
            Some((t, np)) => match d.kind {
                EirDriveKind::Continuous => match record_drive_error(
                    table.widths,
                    prior,
                    d.module@,
                    t,
                    frames,
                    span,
                ) {
                    Some(e) => DriveAnalysis { errors: state.errors.push(e), ..state },
                    None => accept(state, facts, d, t, None),
                },
                EirDriveKind::Next => {
                    let name = place_text(t);
                    if !regs.contains((d.module@, name)) {
                        DriveAnalysis {
                            errors: state.errors.push(
                                plain_diag(ErrorSpec::NextTargetIsNotReg(name), span),
                            ),
                            ..state
                        }
                    } else {
                        match first_next(state.nexts, d.module@, t, frames, 0) {
                            Some(i) => DriveAnalysis {
                                errors: state.errors.push(
                                    DiagnosticModel {
                                        kind: ErrorSpec::DuplicateNextDriver(name),
                                        span,
                                        related: seq![
                                            (state.nexts[i].origin.span, "previous next driver claim"@),
                                            (span, "conflicting next driver claim"@),
                                        ],
                                    },
                                ),
                                ..state
                            },
                            None => {
                                let claimed = DriveAnalysis {
                                    nexts: state.nexts.push(
                                        NextModel { module: d.module@, target: t, frames, origin: d.origin },
                                    ),
                                    consistent: state.consistent && next_place(np, t),
                                    ..state
                                };
                                match record_drive_error(table.widths, prior, d.module@, np, frames, span) {
                                    Some(e) => DriveAnalysis { errors: claimed.errors.push(e), ..claimed },
                                    None => accept(claimed, facts, d, np, Some(t)),
                                }
                            },
                        }
                    }
                },
            },
        },
    }
}

/// The analysis of the drives in order.
pub open spec fn drive_analysis(
    table: TableModel,
    regs: Seq<(Seq<char>, Seq<char>)>,
    drives: Seq<EirDrive>,
    ws: Seq<Option<(DriverPlace, DriverPlace)>>,
    facts: Seq<DriveFact>,
) -> DriveAnalysis
    decreases drives.len(),
{
    if drives.len() == 0 {
        DriveAnalysis { errors: Seq::empty(), nexts: Seq::empty(), accepted: 0, consistent: true }
    } else {
        analysis_step(
            table,
            regs,
            drive_analysis(table, regs, drives.drop_last(), ws.drop_last(), facts),
            facts,
            drives.last(),
            ws.last(),
        )
    }
}

/// `ws` holds what each drive resolves to: for a drive that resolves, its
/// target, with the place of its next value where one is made.
pub open spec fn drive_witness(table: TableModel, drives: Seq<EirDrive>, ws: Seq<Option<(DriverPlace, DriverPlace)>>) -> bool {
    &&& ws.len() == drives.len()
    &&& forall|i: int|
        0 <= i < drives.len() && resolve_error(table, drives[i].module@, drives[i].target) is None
            ==> drive_resolved(table, drives[i], #[trigger] ws[i])
}

/// `w` holds the target `d` resolves to.
pub open spec fn drive_resolved(table: TableModel, d: EirDrive, w: Option<(DriverPlace, DriverPlace)>) -> bool {
    match w {
        Some((t, _)) => resolves_to(table, d.module@, d.target, t),
        None => false,
    }
}

/// Where the analysis of the reads stands: the diagnostics so far, how many
/// reads were accepted, and whether each has its fact.
pub struct ReadAnalysis {
    pub errors: Seq<DiagnosticModel>,
    pub accepted: int,
    pub consistent: bool,
}

/// `f` is the accepted fact of read `r` of `source`.
pub open spec fn read_fact_for(f: ReadFact, r: EirRead, source: DriverPlace) -> bool {
    &&& f.module@ == r.module@
    &&& same_place(f.source, source)
    &&& frames_equal(f.guard.frames@, r.guard.frames@)
    &&& same_origin(f.origin, r.origin)
}

/// The analysis of the reads in order: each must resolve and stay within
/// its object.
pub open spec fn read_analysis(
    table: TableModel,
    reads: Seq<EirRead>,
    ws: Seq<Option<DriverPlace>>,
    facts: Seq<ReadFact>,
) -> ReadAnalysis
    decreases reads.len(),
{
    if reads.len() == 0 {
        ReadAnalysis { errors: Seq::empty(), accepted: 0, consistent: true }
    } else {
        let state = read_analysis(table, reads.drop_last(), ws.drop_last(), facts);
        let r = reads.last();
        match place_error_model(table, r.module@, r.source, r.origin.span) {
            Some(e) => ReadAnalysis { errors: state.errors.push(e), ..state },
            None => match ws.last() {
                None => ReadAnalysis { consistent: false, ..state },
                Some(s) => match bounds_error(table.widths, s, r.guard.frames@, r.origin.span) {
                    Some(e) => ReadAnalysis { errors: state.errors.push(e), ..state },
                    None => ReadAnalysis {
                        accepted: state.accepted + 1,
                        consistent: state.consistent && 0 <= state.accepted < facts.len()
                            && read_fact_for(facts[state.accepted], r, s),
                        ..state
                    },
                },
            },
        }
    }
}

/// `ws` holds the source each resolving read resolves to.
pub open spec fn read_witness(table: TableModel, reads: Seq<EirRead>, ws: Seq<Option<DriverPlace>>) -> bool {
    &&& ws.len() == reads.len()
    &&& forall|i: int|
        0 <= i < reads.len() && resolve_error(table, reads[i].module@, reads[i].source) is None
            ==> read_resolved(table, reads[i], #[trigger] ws[i])
}

/// `w` holds the source `r` resolves to.
pub open spec fn read_resolved(table: TableModel, r: EirRead, w: Option<DriverPlace>) -> bool {
    match w {
        Some(s) => resolves_to(table, r.module@, r.source, s),
        None => false,
    }
}

/// The facts of the analysis are those the drives, reads and objects give,
/// under the resolutions `ws` and `rws`.
pub open spec fn analysis_facts(
    eir: EirDesign,
    ws: Seq<Option<(DriverPlace, DriverPlace)>>,
    rws: Seq<Option<DriverPlace>>,
    drives: Seq<DriveFact>,
    reads: Seq<ReadFact>,
    creates: Seq<CreateFact>,
) -> bool {
    let table = design_table(eir);
    let da = drive_analysis(table, storage_keys(eir.facts.objects@), eir.facts.drives@, ws, drives);
    let ra = read_analysis(table, eir.facts.reads@, rws, reads);
    &&& drive_witness(table, eir.facts.drives@, ws)
    &&& read_witness(table, eir.facts.reads@, rws)
    &&& da.consistent && da.accepted == drives.len()
    &&& ra.consistent && ra.accepted == reads.len()
    &&& creates.len() == eir.facts.objects@.len()
    &&& forall|i: int|
        0 <= i < creates.len() ==> created_from(table, eir.facts.objects@[i], #[trigger] creates[i])
}

/// Everything the analysis finds wrong, in order: the drives, the reads,
/// then output ports, reads of local signals and required signals that are
/// not driven everywhere.
pub open spec fn analysis_errors(
    eir: EirDesign,
    ws: Seq<Option<(DriverPlace, DriverPlace)>>,
    rws: Seq<Option<DriverPlace>>,
    drives: Seq<DriveFact>,
    reads: Seq<ReadFact>,
    creates: Seq<CreateFact>,
) -> Seq<DiagnosticModel> {
    let table = design_table(eir);
    drive_analysis(table, storage_keys(eir.facts.objects@), eir.facts.drives@, ws, drives).errors
        + read_analysis(table, eir.facts.reads@, rws, reads).errors + out_errors(
        table,
        eir.raw.modules@,
        drives,
    ) + undriven_read_errors(table, reads, creates, drives) + activity_errors(table, creates, drives)
}

/// The result of analysing a design, under the resolutions `ws` and `rws`
/// and with the given facts: the facts where nothing is wrong, else every
/// diagnostic.
pub open spec fn analysis_outcome(
    eir: EirDesign,
    r: Result<DriverFacts, Vec<DriverDiagnostic>>,
    ws: Seq<Option<(DriverPlace, DriverPlace)>>,
    rws: Seq<Option<DriverPlace>>,
    drives: Seq<DriveFact>,
    reads: Seq<ReadFact>,
    creates: Seq<CreateFact>,
) -> bool {
    let errors = analysis_errors(eir, ws, rws, drives, reads, creates);
    &&& analysis_facts(eir, ws, rws, drives, reads, creates)
    &&& match r {
        Ok(f) => {
            &&& errors.len() == 0
            &&& f.objects.wf()
            &&& f.objects@ == design_table(eir)
            &&& f.drives@ == drives
            &&& f.reads@ == reads
            &&& f.creates@ == creates
            &&& summaries_are(f.summary_cells@, drives, reads, creates)
        },
        Err(e) => errors.len() > 0 && diag_models(e@) == errors,
    }
}


proof fn lemma_drive_witness_push(
    table: TableModel,
    drives: Seq<EirDrive>,
    d: EirDrive,
    ws: Seq<Option<(DriverPlace, DriverPlace)>>,
    w: Option<(DriverPlace, DriverPlace)>,
)
    requires
        drive_witness(table, drives, ws),
        resolve_error(table, d.module@, d.target) is None ==> drive_resolved(table, d, w),
    ensures
        drive_witness(table, drives.push(d), ws.push(w)),
{
    assert forall|i: int|
        0 <= i < drives.push(d).len() && resolve_error(
            table,
            drives.push(d)[i].module@,
            drives.push(d)[i].target,
        ) is None implies drive_resolved(table, drives.push(d)[i], #[trigger] ws.push(w)[i]) by {
        if i < drives.len() {
            assert(ws.push(w)[i] == ws[i]);
            assert(drives.push(d)[i] == drives[i]);
        }
    }
}

proof fn lemma_step_monotone(
    table: TableModel,
    regs: Seq<(Seq<char>, Seq<char>)>,
    state: DriveAnalysis,
    facts: Seq<DriveFact>,
    d: EirDrive,
    w: Option<(DriverPlace, DriverPlace)>,
)
    ensures
        analysis_step(table, regs, state, facts, d, w).accepted >= state.accepted,
        analysis_step(table, regs, state, facts, d, w).accepted <= state.accepted + 1,
        analysis_step(table, regs, state, facts, d, w).accepted == state.accepted + 1 ==> (analysis_step(
            table,
            regs,
            state,
            facts,
            d,
            w,
        ).consistent ==> state.accepted < facts.len()),
{
}

/// The analysis of the drives does not depend on facts after those it
/// accepted.
proof fn lemma_analysis_prefix(
    table: TableModel,
    regs: Seq<(Seq<char>, Seq<char>)>,
    drives: Seq<EirDrive>,
    ws: Seq<Option<(DriverPlace, DriverPlace)>>,
    facts: Seq<DriveFact>,
    facts2: Seq<DriveFact>,
)
    requires
        facts.len() <= facts2.len(),
        forall|i: int| 0 <= i < facts.len() ==> facts2[i] == facts[i],
        drive_analysis(table, regs, drives, ws, facts).accepted <= facts.len(),
    ensures
        drive_analysis(table, regs, drives, ws, facts2) == drive_analysis(table, regs, drives, ws, facts),
        drive_analysis(table, regs, drives, ws, facts).accepted >= 0,
    decreases drives.len(),
{
    if drives.len() > 0 {
        let prev = drive_analysis(table, regs, drives.drop_last(), ws.drop_last(), facts);
        lemma_step_monotone(table, regs, prev, facts, drives.last(), ws.last());
        lemma_analysis_prefix(table, regs, drives.drop_last(), ws.drop_last(), facts, facts2);
        assert(facts.take(prev.accepted) =~= facts2.take(prev.accepted));
    }
}


/// Appends diagnostics in order.
fn append(errors: &mut Vec<DriverDiagnostic>, found: Vec<DriverDiagnostic>)
    ensures
        diag_models(final(errors)@) == diag_models(old(errors)@) + diag_models(found@),
{
    let mut found = found;
    let ghost before = errors@;
    let ghost added = found@;
    errors.append(&mut found);
    proof {
        assert(diag_models(errors@) =~= diag_models(before) + diag_models(added));
    }
}

proof fn lemma_read_witness_push(
    table: TableModel,
    reads: Seq<EirRead>,
    r: EirRead,
    ws: Seq<Option<DriverPlace>>,
    w: Option<DriverPlace>,
)
    requires
        read_witness(table, reads, ws),
        resolve_error(table, r.module@, r.source) is None ==> read_resolved(table, r, w),
    ensures
        read_witness(table, reads.push(r), ws.push(w)),
{
    assert forall|i: int|
        0 <= i < reads.push(r).len() && resolve_error(
            table,
            reads.push(r)[i].module@,
            reads.push(r)[i].source,
        ) is None implies read_resolved(table, reads.push(r)[i], #[trigger] ws.push(w)[i]) by {
        if i < reads.len() {
            assert(ws.push(w)[i] == ws[i]);
            assert(reads.push(r)[i] == reads[i]);
        }
    }
}

/// The analysis of the reads does not depend on facts after those it
/// accepted.
proof fn lemma_read_analysis_prefix(
    table: TableModel,
    reads: Seq<EirRead>,
    ws: Seq<Option<DriverPlace>>,
    facts: Seq<ReadFact>,
    facts2: Seq<ReadFact>,
)
    requires
        facts.len() <= facts2.len(),
        forall|i: int| 0 <= i < facts.len() ==> facts2[i] == facts[i],
        read_analysis(table, reads, ws, facts).accepted <= facts.len(),
    ensures
        read_analysis(table, reads, ws, facts2) == read_analysis(table, reads, ws, facts),
        read_analysis(table, reads, ws, facts).accepted >= 0,
    decreases reads.len(),
{
    if reads.len() > 0 {
        lemma_read_analysis_prefix(table, reads.drop_last(), ws.drop_last(), facts, facts2);
    }
}

// ---------------------------------------------------------------------------
// The analyzer
// ---------------------------------------------------------------------------

/// A claim on the next value of storage.
pub struct NextClaim<'a> {
    pub module: &'a str,
    pub target: DriverPlace,
    pub guard: &'a EirGuard,
    pub origin: &'a EirOrigin,
}

/// What a next-value claim says.
pub open spec fn next_model(c: NextClaim) -> NextModel {
    NextModel { module: c.module@, target: c.target, frames: c.guard.frames@, origin: *c.origin }
}

/// What a list of next-value claims says.
pub open spec fn next_models(v: Seq<NextClaim>) -> Seq<NextModel> {
    v.map_values(|c: NextClaim| next_model(c))
}

impl<'a> NextClaim<'a> {
    /// A claim on the next value of `target`.
    pub fn new(module: &'a str, target: DriverPlace, guard: &'a EirGuard, origin: &'a EirOrigin) -> (r:
        Self)
        ensures
            r.module == module,
            r.target == target,
            r.guard == guard,
            r.origin == origin,
    {
        NextClaim { module, target, guard, origin }
    }

    /// The claim is on the same place in the same module under the same
    /// scopes.
    pub fn matches(&self, module: &str, target: &DriverPlace, guard: &EirGuard) -> (r: bool)
        ensures
            r == (self.module@ == module@ && same_place(self.target, *target) && frames_equal(
                self.guard.frames@,
                guard.frames@,
            )),
    {
        str_eq(self.module, module) && self.target.same_as(target) && self.guard.same_as(guard)
    }

    /// Where the claim was made.
    pub fn origin(&self) -> (r: &EirOrigin)
        ensures
            *r == *self.origin,
    {
        self.origin
    }
}

/// Resolves, checks and gathers the drives and reads of a design in one
/// pass.
pub struct DriverAnalyzer<'a> {
    pub eir: &'a EirDesign,
    pub objects: DriverObjectTable,
    pub regs: Vec<(String, String)>,
    pub nexts: Vec<NextClaim<'a>>,
    pub drives: Vec<DriveFact>,
    pub reads: Vec<ReadFact>,
    pub creates: Vec<CreateFact>,
    pub errors: Vec<DriverDiagnostic>,
}

/// The texts of a list of keys.
pub open spec fn reg_views(v: Seq<(String, String)>) -> Seq<(Seq<char>, Seq<char>)> {
    v.map_values(|k: (String, String)| (k.0@, k.1@))
}

impl<'a> DriverAnalyzer<'a> {
    /// An analyzer of the design with nothing gathered yet.
    pub fn new(eir: &'a EirDesign) -> (r: Self)
        ensures
            r.eir == eir,
            r.objects.wf(),
            r.regs@.len() == 0,
            r.nexts@.len() == 0,
            r.drives@.len() == 0,
            r.reads@.len() == 0,
            r.creates@.len() == 0,
            r.errors@.len() == 0,
    {
        DriverAnalyzer {
            eir,
            objects: DriverObjectTable::new(),
            regs: Vec::new(),
            nexts: Vec::new(),
            drives: Vec::new(),
            reads: Vec::new(),
            creates: Vec::new(),
            errors: Vec::new(),
        }
    }

    /// The facts of the design, or the first diagnostic of the analysis.
    pub fn analyze(self) -> (r: Result<DriverFacts, DriverDiagnostic>)
        requires
            self.drives@.len() == 0,
            self.reads@.len() == 0,
            self.creates@.len() == 0,
        ensures
            exists|
                ws: Seq<Option<(DriverPlace, DriverPlace)>>,
                rws: Seq<Option<DriverPlace>>,
                drives: Seq<DriveFact>,
                reads: Seq<ReadFact>,
                creates: Seq<CreateFact>,
            |
                #![trigger analysis_errors(*self.eir, ws, rws, drives, reads, creates)]
                {
                    let errors = analysis_errors(*self.eir, ws, rws, drives, reads, creates);
                    &&& analysis_facts(*self.eir, ws, rws, drives, reads, creates)
                    &&& match r {
                        Ok(f) => errors.len() == 0 && f.drives@ == drives && f.reads@ == reads
                            && f.creates@ == creates,
                        Err(e) => errors.len() > 0 && diag_model(e) == errors[0],
                    }
                },
    {
        let ghost eir = *self.eir;
        match self.analyze_collect() {
            Ok(f) => Ok(f),
            Err(errors) => {
                let mut errors = errors;
                proof {
                    assert(diag_models(errors@).len() > 0);
                }
                let first = errors.remove(0);
                Err(first)
            },
        }
    }

    /// The facts of the design where the analysis finds nothing wrong; else
    /// every diagnostic, in the order found.
    pub fn analyze_collect(self) -> (r: Result<DriverFacts, Vec<DriverDiagnostic>>)
        requires
            self.drives@.len() == 0,
            self.reads@.len() == 0,
            self.creates@.len() == 0,
        ensures
            exists|
                ws: Seq<Option<(DriverPlace, DriverPlace)>>,
                rws: Seq<Option<DriverPlace>>,
                drives: Seq<DriveFact>,
                reads: Seq<ReadFact>,
                creates: Seq<CreateFact>,
            |
                #[trigger] analysis_outcome(*self.eir, r, ws, rws, drives, reads, creates),
    {
        let mut this = self;
        let ghost eir = *this.eir;
        this.begin_analysis();
        this.index_objects();
        this.collect_creates();
        let Ghost(ws) = this.collect_drives();
        let Ghost(rws) = this.collect_reads();
        this.collect_out_completeness();
        this.collect_read_completeness();
        this.collect_signal_activity();
        let ghost drives = this.drives@;
        let ghost reads = this.reads@;
        let ghost creates = this.creates@;
        proof {
            assert(diag_models(this.errors@) =~= analysis_errors(eir, ws, rws, drives, reads, creates));
        }
        if this.errors.len() > 0 {
            let r = Err(this.errors);
            proof {
                assert(analysis_outcome(eir, r, ws, rws, drives, reads, creates));
            }
            return r;
        }
        let collector = CellSummaryCollector::new(
            this.drives.as_slice(),
            this.reads.as_slice(),
            this.creates.as_slice(),
        ).collect();
        let ghost table = collector.summaries@;
        let cell_summaries = collector.finish();
        proof {
            lemma_table_summaries(table, drives, reads, creates);
        }
        let r = Ok(DriverFacts::new(this.objects, this.drives, this.reads, this.creates, cell_summaries));
        proof {
            assert(analysis_outcome(eir, r, ws, rws, drives, reads, creates));
        }
        r
    }

    /// Forgets the storage keys, claims and diagnostics of an earlier run.
    pub fn begin_analysis(&mut self)
        ensures
            final(self).eir == old(self).eir,
            final(self).objects == old(self).objects,
            final(self).drives == old(self).drives,
            final(self).reads == old(self).reads,
            final(self).creates == old(self).creates,
            final(self).regs@.len() == 0,
            final(self).nexts@.len() == 0,
            final(self).errors@.len() == 0,
    {
        self.regs = Vec::new();
        self.nexts = Vec::new();
        self.errors = Vec::new();
    }

    /// Records every port and every declared object with its width.
    pub fn index_objects(&mut self)
        ensures
            final(self).eir == old(self).eir,
            final(self).objects.wf(),
            final(self).objects@ == design_table(*old(self).eir),
            final(self).regs == old(self).regs,
            final(self).nexts == old(self).nexts,
            final(self).drives == old(self).drives,
            final(self).reads == old(self).reads,
            final(self).creates == old(self).creates,
            final(self).errors == old(self).errors,
    {
        self.objects = index_design(self.eir);
    }

    /// Records a created fact for each declared object and the key of each
    /// storage object.
    pub fn collect_creates(&mut self)
        requires
            old(self).objects.wf(),
            old(self).objects@ == design_table(*old(self).eir),
            old(self).creates@.len() == 0,
            old(self).regs@.len() == 0,
        ensures
            final(self).eir == old(self).eir,
            final(self).objects.wf(),
            final(self).objects@ == old(self).objects@,
            final(self).nexts == old(self).nexts,
            final(self).drives == old(self).drives,
            final(self).reads == old(self).reads,
            final(self).errors == old(self).errors,
            reg_views(final(self).regs@) == storage_keys(old(self).eir.facts.objects@),
            final(self).creates@.len() == old(self).eir.facts.objects@.len(),
            forall|i: int|
                0 <= i < final(self).creates@.len() ==> created_from(
                    final(self).objects@,
                    old(self).eir.facts.objects@[i],
                    #[trigger] final(self).creates@[i],
                ),
    {
        let eir = self.eir;
        let objects = eir.objects();
        let ghost table = self.objects@;
        let ghost entries = crate::collect::module_entries(eir.raw.modules@)
            + crate::collect::object_entries(eir.facts.objects@);
        let mut k: usize = 0;
        proof {
            assert(objects@.take(0) =~= Seq::<EirObject>::empty());
            assert(reg_views(self.regs@) =~= storage_keys(Seq::empty()));
        }
        while k < objects.len()
            invariant
                k <= objects.len(),
                objects@ == eir.facts.objects@,
                self.eir == eir,
                self.nexts == old(self).nexts,
                self.drives == old(self).drives,
                self.reads == old(self).reads,
                self.errors == old(self).errors,
                self.objects.wf(),
                self.objects@ == table,
                table == crate::collect::interned(entries),
                entries == crate::collect::module_entries(eir.raw.modules@)
                    + crate::collect::object_entries(eir.facts.objects@),
                reg_views(self.regs@) == storage_keys(objects@.take(k as int)),
                self.creates@.len() == k,
                forall|i: int|
                    0 <= i < k ==> created_from(table, objects@[i], #[trigger] self.creates@[i]),
            decreases objects.len() - k,
        {
            let object = &objects[k];
            proof {
                let j = crate::collect::module_entries(eir.raw.modules@).len() + k;
                assert(entries[j] == (object.module@, object.name@, crate::bound::eir_bound_model(
                    object.width,
                )));
                crate::collect::lemma_interned_has(entries, j);
                assert(objects@.take(k + 1).drop_last() =~= objects@.take(k as int));
                assert(objects@.take(k + 1).last() == objects@[k as int]);
            }
            let kind = match object.kind() {
                EirObjectKind::Signal => CreateKind::Signal,
                EirObjectKind::Storage => {
                    let ghost before = self.regs@;
                    self.regs.push((object.module().to_owned(), object.name().to_owned()));
                    proof {
                        assert(reg_views(self.regs@) =~= reg_views(before).push((object.module@, object.name@)));
                    }
                    CreateKind::Storage
                },
            };
            let object_id = self.objects.intern(object.module(), object.name());
            self.creates.push(
                CreateFact::new(
                    object.module(),
                    object.name(),
                    object_id,
                    kind,
                    object.activity(),
                    object.origin().copy(),
                ),
            );
            k = k + 1;
        }
        proof {
            assert(objects@.take(objects@.len() as int) =~= objects@);
        }
    }


    /// The diagnostic for a place that does not resolve.
    pub fn place_error(&self, error: crate::place::DriverPlaceError, span: Span) -> (r: DriverDiagnostic)
        ensures
            diag_model(r) == match error {
                crate::place::DriverPlaceError::UnsupportedExpr => plain_diag(
                    ErrorSpec::UnsupportedHardwareValueExpression,
                    span,
                ),
                crate::place::DriverPlaceError::UnknownObject { module, name } => plain_diag(
                    ErrorSpec::UnknownHardwareObject(module@, name@),
                    span,
                ),
            },
    {
        DriverFactsCollector::place_error(error, span)
    }

    /// Accepts a drive of `target` unless it leaves its object or conflicts
    /// with an accepted drive; an accepted drive becomes a fact.
    pub fn record_drive(
        &mut self,
        module: &'a str,
        target: DriverPlace,
        storage: Option<DriverPlace>,
        guard: &'a EirGuard,
        origin: &'a EirOrigin,
    ) -> (r: Result<(), DriverDiagnostic>)
        requires
            old(self).objects.wf(),
        ensures
            final(self).eir == old(self).eir,
            final(self).objects == old(self).objects,
            final(self).regs == old(self).regs,
            final(self).nexts == old(self).nexts,
            final(self).reads == old(self).reads,
            final(self).creates == old(self).creates,
            final(self).errors == old(self).errors,
            match record_drive_error(
                old(self).objects@.widths,
                old(self).drives@,
                module@,
                target,
                guard.frames@,
                origin.span,
            ) {
                Some(e) => r matches Err(d) && diag_model(d) == e && final(self).drives == old(self).drives,
                None => {
                    &&& r is Ok
                    &&& final(self).drives@.len() == old(self).drives@.len() + 1
                    &&& final(self).drives@.drop_last() == old(self).drives@
                    &&& fact_parts(final(self).drives@.last(), module@, target, storage, guard.frames@, *origin)
                    &&& final(self).drives@.last().effect == match storage {
                        Some(s) => DriveEffect::Next { storage_target: Box::new(s) },
                        None => DriveEffect::Continuous,
                    }
                },
            },
    {
        let checker = DriverBoundsChecker::new(&self.objects);
        checker.check_place(&target, guard, origin)?;
        let ghost facts = self.drives@;
        let mut i: usize = 0;
        while i < self.drives.len()
            invariant
                i <= self.drives.len(),
                facts == self.drives@,
                facts == old(self).drives@,
                self.objects == old(self).objects,
                bounds_error(old(self).objects@.widths, target, guard.frames@, origin.span) is None,
                first_conflict(facts, module@, target, guard.frames@, 0) == first_conflict(
                    facts,
                    module@,
                    target,
                    guard.frames@,
                    i as int,
                ),
            decreases self.drives.len() - i,
        {
            let claim = &self.drives[i];
            if str_eq(claim.module(), module) && claim.target_place().overlaps(&target)
                && !crate::guard::DriverGuardSet::new(claim.guard(), guard).is_mutually_exclusive() {
                let previous = crate::text::string_of(&crate::text::chars_of("previous driver claim"));
                let conflicting = crate::text::string_of(&crate::text::chars_of("conflicting driver claim"));
                let related = vec![(claim.origin().span(), previous), (origin.span(), conflicting)];
                let d = DriverDiagnostic::driver_error_with_related(
                    DriverError::DuplicateHardwareDriver { name: target.display() },
                    origin.span(),
                    related,
                );
                proof {
                    assert(crate::drc::related_views(d.related@) =~= seq![
                        (facts[i as int].origin.span, "previous driver claim"@),
                        (origin.span, "conflicting driver claim"@),
                    ]);
                    assert(first_conflict(facts, module@, target, guard.frames@, i as int) == Some(i as int));
                }
                return Err(d);
            }
            i = i + 1;
        }
        proof {
            crate::place::lemma_same_place_reflexive(target);
            if storage is Some {
                crate::place::lemma_same_place_reflexive(storage->0);
            }
        }
        let fact = DriveFact::new(
            module,
            target,
            match storage {
                Some(s) => DriveEffect::Next { storage_target: Box::new(s) },
                None => DriveEffect::Continuous,
            },
            None,
            EirGuard::from_frames(guard.frames()),
            origin.copy(),
        );
        let ghost before = self.drives@;
        self.drives.push(fact);
        proof {
            assert(self.drives@.drop_last() =~= before);
        }
        Ok(())
    }

    /// Accepts a drive of the next value of `target`: the target must be
    /// storage, the same next value must not be claimed before under the
    /// same scopes, and the drive of the next value must be accepted.
    pub fn record_next(
        &mut self,
        module: &'a str,
        target: DriverPlace,
        guard: &'a EirGuard,
        origin: &'a EirOrigin,
    ) -> (r: Result<(), DriverDiagnostic>)
        requires
            old(self).objects.wf(),
        ensures
            final(self).eir == old(self).eir,
            final(self).objects == old(self).objects,
            final(self).regs == old(self).regs,
            final(self).reads == old(self).reads,
            final(self).creates == old(self).creates,
            final(self).errors == old(self).errors,
            ({
                let name = place_text(target);
                let span = origin.span;
                if !reg_views(old(self).regs@).contains((module@, name)) {
                    &&& r matches Err(d) && diag_model(d) == plain_diag(
                        ErrorSpec::NextTargetIsNotReg(name),
                        span,
                    )
                    &&& final(self).nexts == old(self).nexts
                    &&& final(self).drives == old(self).drives
                } else {
                    match first_next(next_models(old(self).nexts@), module@, target, guard.frames@, 0) {
                        Some(i) => {
                            &&& r matches Err(d) && diag_model(d) == DiagnosticModel {
                                kind: ErrorSpec::DuplicateNextDriver(name),
                                span,
                                related: seq![
                                    (next_models(old(self).nexts@)[i].origin.span, "previous next driver claim"@),
                                    (span, "conflicting next driver claim"@),
                                ],
                            }
                            &&& final(self).nexts == old(self).nexts
                            &&& final(self).drives == old(self).drives
                        },
                        None => {
                            &&& next_models(final(self).nexts@) == next_models(old(self).nexts@).push(
                                NextModel { module: module@, target, frames: guard.frames@, origin: *origin },
                            )
                            &&& exists|np: DriverPlace|
                                #![trigger next_place(np, target)]
                                next_place(np, target) && match record_drive_error(
                                    old(self).objects@.widths,
                                    old(self).drives@,
                                    module@,
                                    np,
                                    guard.frames@,
                                    span,
                                ) {
                                    Some(e) => r matches Err(d) && diag_model(d) == e && final(self).drives
                                        == old(self).drives,
                                    None => {
                                        &&& r is Ok
                                        &&& final(self).drives@.len() == old(self).drives@.len() + 1
                                        &&& final(self).drives@.drop_last() == old(self).drives@
                                        &&& fact_parts(
                                            final(self).drives@.last(),
                                            module@,
                                            np,
                                            Some(target),
                                            guard.frames@,
                                            *origin,
                                        )
                                    },
                                }
                        },
                    }
                }
            }),
    {
        let name = target.display();
        if !self.is_reg(module, name.as_str()) {
            let d = DriverDiagnostic::driver_error(DriverError::NextTargetIsNotReg { name }, origin.span());
            proof {
                assert(crate::drc::related_views(d.related@) =~= Seq::<(Span, Seq<char>)>::empty());
            }
            return Err(d);
        }
        let ghost models = next_models(self.nexts@);
        let mut i: usize = 0;
        while i < self.nexts.len()
            invariant
                i <= self.nexts.len(),
                models == next_models(self.nexts@),
                self.nexts == old(self).nexts,
                self.drives == old(self).drives,
                self.regs == old(self).regs,
                self.objects == old(self).objects,
                self.eir == old(self).eir,
                self.reads == old(self).reads,
                self.creates == old(self).creates,
                self.errors == old(self).errors,
                self.objects.wf(),
                name@ == place_text(target),
                reg_views(old(self).regs@).contains((module@, place_text(target))),
                first_next(models, module@, target, guard.frames@, 0) == first_next(
                    models,
                    module@,
                    target,
                    guard.frames@,
                    i as int,
                ),
            decreases self.nexts.len() - i,
        {
            if self.nexts[i].matches(module, &target, guard) {
                let previous = crate::text::string_of(&crate::text::chars_of("previous next driver claim"));
                let conflicting = crate::text::string_of(
                    &crate::text::chars_of("conflicting next driver claim"),
                );
                let related = vec![(self.nexts[i].origin().span(), previous), (origin.span(), conflicting)];
                let d = DriverDiagnostic::driver_error_with_related(
                    DriverError::DuplicateNextDriver { name },
                    origin.span(),
                    related,
                );
                proof {
                    assert(crate::drc::related_views(d.related@) =~= seq![
                        (models[i as int].origin.span, "previous next driver claim"@),
                        (origin.span, "conflicting next driver claim"@),
                    ]);
                    assert(models[i as int] == next_model(self.nexts@[i as int]));
                    assert(first_next(models, module@, target, guard.frames@, i as int) == Some(i as int));
                }
                return Err(d);
            }
            i = i + 1;
        }
        let next = DriverPlace::Expr(DriverExpr::Ident(next_name(&target)));
        let storage = target.copy();
        proof {
            lemma_same_place_symmetric(storage, target);
        }
        let ghost np = next;
        let ghost t = target;
        let ghost before = self.nexts@;
        self.nexts.push(NextClaim::new(module, target, guard, origin));
        proof {
            assert(next_models(self.nexts@) =~= next_models(before).push(
                NextModel { module: module@, target: t, frames: guard.frames@, origin: *origin },
            ));
        }
        let ghost sg = storage;
        let r = self.record_drive(module, next, Some(storage), guard, origin);
        proof {
            assert(next_place(np, t));
            if r is Ok {
                let f = self.drives@.last();
                assert(f.effect == DriveEffect::Next { storage_target: Box::new(sg) });
                assert(same_place(sg, t));
            }
        }
        r
    }

    /// Resolves and records each drive in order; what each resolved to.
    fn collect_drives(&mut self) -> (ws: Ghost<Seq<Option<(DriverPlace, DriverPlace)>>>)
        requires
            old(self).objects.wf(),
            old(self).objects@ == design_table(*old(self).eir),
            reg_views(old(self).regs@) == storage_keys(old(self).eir.facts.objects@),
            old(self).nexts@.len() == 0,
            old(self).drives@.len() == 0,
        ensures
            final(self).eir == old(self).eir,
            final(self).objects == old(self).objects,
            final(self).regs == old(self).regs,
            final(self).reads == old(self).reads,
            final(self).creates == old(self).creates,
            drive_witness(design_table(*old(self).eir), old(self).eir.facts.drives@, ws@),
            ({
                let da = drive_analysis(
                    design_table(*old(self).eir),
                    storage_keys(old(self).eir.facts.objects@),
                    old(self).eir.facts.drives@,
                    ws@,
                    final(self).drives@,
                );
                &&& diag_models(final(self).errors@) == diag_models(old(self).errors@) + da.errors
                &&& da.consistent
                &&& da.accepted == final(self).drives@.len()
            }),
    {
        let eir = self.eir;
        let drives = eir.drives();
        let ghost table = self.objects@;
        let ghost regs = storage_keys(eir.facts.objects@);
        let ghost errors0 = diag_models(self.errors@);
        let ghost mut ws: Seq<Option<(DriverPlace, DriverPlace)>> = Seq::empty();
        let mut k: usize = 0;
        proof {
            assert(drives@.take(0) =~= Seq::<EirDrive>::empty());
            assert(errors0 + Seq::<DiagnosticModel>::empty() =~= errors0);
            assert(next_models(self.nexts@) =~= Seq::<NextModel>::empty());
        }
        while k < drives.len()
            invariant
                k <= drives.len(),
                drives@ == eir.facts.drives@,
                self.eir == eir,
                self.objects == old(self).objects,
                self.regs == old(self).regs,
                self.reads == old(self).reads,
                self.creates == old(self).creates,
                self.objects.wf(),
                self.objects@ == table,
                table == design_table(*eir),
                regs == storage_keys(eir.facts.objects@),
                reg_views(self.regs@) == regs,
                errors0 == diag_models(old(self).errors@),
                drive_witness(table, drives@.take(k as int), ws),
                ({
                    let da = drive_analysis(table, regs, drives@.take(k as int), ws, self.drives@);
                    &&& diag_models(self.errors@) == errors0 + da.errors
                    &&& next_models(self.nexts@) == da.nexts
                    &&& da.consistent
                    &&& da.accepted == self.drives@.len()
                }),
            decreases drives.len() - k,
        {
            let drive = &drives[k];
            let ghost d = drives@[k as int];
            let ghost prefix = drives@.take(k as int);
            let ghost facts0 = self.drives@;
            let ghost state = drive_analysis(table, regs, prefix, ws, facts0);
            let ghost errs_before = self.errors@;
            proof {
                assert(drives@.take(k + 1).drop_last() =~= prefix);
                assert(drives@.take(k + 1).last() == d);
            }
            let resolver = DriverPlaceResolver::new(drive.module(), &self.objects);
            let resolved = resolver.resolve_place(drive.target_place());
            let ghost mut w: Option<(DriverPlace, DriverPlace)> = if resolved is Ok {
                Some((resolved->Ok_0, resolved->Ok_0))
            } else {
                None
            };
            match resolved {
                Err(error) => {
                    let e = self.place_error(error, drive.origin().span());
                    self.errors.push(e);
                    proof {
                        assert(place_error_model(table, d.module@, d.target, d.origin.span) == Some(
                            diag_model(e),
                        ));
                        assert(diag_models(self.errors@) =~= diag_models(errs_before).push(diag_model(e)));
                    }
                },
                Ok(target) => {
                    match drive.kind() {
                        EirDriveKind::Continuous => {
                            let result = self.record_drive(drive.module(), target, None, drive.guard(), drive.origin());
                            if let Err(e) = result {
                                self.errors.push(e);
                                proof {
                                    assert(diag_models(self.errors@) =~= diag_models(errs_before).push(
                                        diag_model(e),
                                    ));
                                }
                            }
                        },
                        EirDriveKind::Next => {
                            let result = self.record_next(drive.module(), target, drive.guard(), drive.origin());
                            if let Err(e) = result {
                                self.errors.push(e);
                                proof {
                                    assert(diag_models(self.errors@) =~= diag_models(errs_before).push(
                                        diag_model(e),
                                    ));
                                }
                            }
                            proof {
                                let t = (w->0).0;
                                let name = place_text(t);
                                if reg_views(self.regs@).contains((d.module@, name)) && first_next(
                                    state.nexts,
                                    d.module@,
                                    t,
                                    d.guard.frames@,
                                    0,
                                ) is None {
                                    let np = choose|np: DriverPlace|
                                        #![trigger next_place(np, t)]
                                        next_place(np, t) && match record_drive_error(
                                            table.widths,
                                            facts0,
                                            d.module@,
                                            np,
                                            d.guard.frames@,
                                            d.origin.span,
                                        ) {
                                            Some(e) => result matches Err(x) && diag_model(x) == e
                                                && self.drives@ == facts0,
                                            None => {
                                                &&& result is Ok
                                                &&& self.drives@.len() == facts0.len() + 1
                                                &&& self.drives@.drop_last() == facts0
                                                &&& fact_parts(
                                                    self.drives@.last(),
                                                    d.module@,
                                                    np,
                                                    Some(t),
                                                    d.guard.frames@,
                                                    d.origin,
                                                )
                                            },
                                        };
                                    w = Some((t, np));
                                }
                            }
                        },
                    }
                },
            }
            proof {
                let ws2 = ws.push(w);
                assert(ws2.drop_last() =~= ws);
                assert(ws2.last() == w);
                lemma_drive_witness_push(table, prefix, d, ws, w);
                assert(prefix.push(d) =~= drives@.take(k + 1));
                assert(facts0.len() <= self.drives@.len());
                assert(forall|i: int| 0 <= i < facts0.len() ==> self.drives@[i] == facts0[i]);
                lemma_analysis_prefix(table, regs, prefix, ws, facts0, self.drives@);
                assert(facts0 =~= self.drives@.take(state.accepted));
                assert(drive_analysis(table, regs, drives@.take(k + 1), ws2, self.drives@)
                    == analysis_step(table, regs, state, self.drives@, d, w));
                ws = ws2;
            }
            k = k + 1;
        }
        proof {
            assert(drives@.take(drives@.len() as int) =~= drives@);
        }
        Ghost(ws)
    }


    /// Resolves each read and checks it stays within its object, in order;
    /// what each resolved to.
    fn collect_reads(&mut self) -> (ws: Ghost<Seq<Option<DriverPlace>>>)
        requires
            old(self).objects.wf(),
            old(self).objects@ == design_table(*old(self).eir),
            old(self).reads@.len() == 0,
        ensures
            final(self).eir == old(self).eir,
            final(self).objects == old(self).objects,
            final(self).regs == old(self).regs,
            final(self).drives == old(self).drives,
            final(self).creates == old(self).creates,
            read_witness(design_table(*old(self).eir), old(self).eir.facts.reads@, ws@),
            ({
                let ra = read_analysis(
                    design_table(*old(self).eir),
                    old(self).eir.facts.reads@,
                    ws@,
                    final(self).reads@,
                );
                &&& diag_models(final(self).errors@) == diag_models(old(self).errors@) + ra.errors
                &&& ra.consistent
                &&& ra.accepted == final(self).reads@.len()
            }),
    {
        let eir = self.eir;
        let reads = eir.reads();
        let ghost table = self.objects@;
        let ghost errors0 = diag_models(self.errors@);
        let ghost mut ws: Seq<Option<DriverPlace>> = Seq::empty();
        let mut k: usize = 0;
        proof {
            assert(reads@.take(0) =~= Seq::<EirRead>::empty());
            assert(errors0 + Seq::<DiagnosticModel>::empty() =~= errors0);
        }
        while k < reads.len()
            invariant
                k <= reads.len(),
                reads@ == eir.facts.reads@,
                self.eir == eir,
                self.objects == old(self).objects,
                self.regs == old(self).regs,
                self.drives == old(self).drives,
                self.creates == old(self).creates,
                self.objects.wf(),
                self.objects@ == table,
                table == design_table(*eir),
                errors0 == diag_models(old(self).errors@),
                read_witness(table, reads@.take(k as int), ws),
                ({
                    let ra = read_analysis(table, reads@.take(k as int), ws, self.reads@);
                    &&& diag_models(self.errors@) == errors0 + ra.errors
                    &&& ra.consistent
                    &&& ra.accepted == self.reads@.len()
                }),
            decreases reads.len() - k,
        {
            let read = &reads[k];
            let ghost r = reads@[k as int];
            let ghost prefix = reads@.take(k as int);
            let ghost facts0 = self.reads@;
            let ghost errs_before = self.errors@;
            proof {
                assert(reads@.take(k + 1).drop_last() =~= prefix);
                assert(reads@.take(k + 1).last() == r);
            }
            let ghost state = read_analysis(table, prefix, ws, facts0);
            let resolver = DriverPlaceResolver::new(read.module(), &self.objects);
            let resolved = resolver.resolve_place(read.source_place());
            let ghost w: Option<DriverPlace> = if resolved is Ok {
                Some(resolved->Ok_0)
            } else {
                None
            };
            match resolved {
                Err(error) => {
                    let e = self.place_error(error, read.origin().span());
                    self.errors.push(e);
                    proof {
                        assert(place_error_model(table, r.module@, r.source, r.origin.span) == Some(
                            diag_model(e),
                        ));
                        assert(diag_models(self.errors@) =~= diag_models(errs_before).push(diag_model(e)));
                    }
                },
                Ok(source) => {
                    let checker = DriverBoundsChecker::new(&self.objects);
                    match checker.check_place(&source, read.guard(), read.origin()) {
                        Err(e) => {
                            self.errors.push(e);
                            proof {
                                assert(diag_models(self.errors@) =~= diag_models(errs_before).push(
                                    diag_model(e),
                                ));
                            }
                        },
                        Ok(()) => {
                            proof {
                                crate::place::lemma_same_place_reflexive(source);
                            }
                            let ghost before = self.reads@;
                            self.reads.push(
                                ReadFact::new(
                                    read.module(),
                                    source,
                                    EirGuard::from_frames(read.guard().frames()),
                                    read.origin().copy(),
                                ),
                            );
                            proof {
                                assert(self.reads@.drop_last() =~= before);
                                assert(read_fact_for(self.reads@[state.accepted], r, w->0));
                            }
                        },
                    }
                },
            }
            proof {
                let ws2 = ws.push(w);
                assert(ws2.drop_last() =~= ws);
                assert(ws2.last() == w);
                lemma_read_witness_push(table, prefix, r, ws, w);
                assert(prefix.push(r) =~= reads@.take(k + 1));
                assert(forall|i: int| 0 <= i < facts0.len() ==> self.reads@[i] == facts0[i]);
                lemma_read_analysis_prefix(table, prefix, ws, facts0, self.reads@);
                ws = ws2;
            }
            k = k + 1;
        }
        proof {
            assert(reads@.take(reads@.len() as int) =~= reads@);
        }
        Ghost(ws)
    }

    /// Adds a diagnostic for each output port that is not driven everywhere.
    pub fn collect_out_completeness(&mut self)
        requires
            old(self).objects.wf(),
        ensures
            final(self).eir == old(self).eir,
            final(self).objects == old(self).objects,
            final(self).drives == old(self).drives,
            final(self).reads == old(self).reads,
            final(self).creates == old(self).creates,
            diag_models(final(self).errors@) == diag_models(old(self).errors@) + out_errors(
                old(self).objects@,
                old(self).eir.raw.modules@,
                old(self).drives@,
            ),
    {
        let checker = DriverCompletenessChecker::new(self.eir, &self.objects, self.drives.as_slice());
        let found = checker.collect_errors();
        append(&mut self.errors, found);
    }

    /// Adds a diagnostic for each read of a local signal that is not covered.
    pub fn collect_read_completeness(&mut self)
        requires
            old(self).objects.wf(),
        ensures
            final(self).eir == old(self).eir,
            final(self).objects == old(self).objects,
            final(self).drives == old(self).drives,
            final(self).reads == old(self).reads,
            final(self).creates == old(self).creates,
            diag_models(final(self).errors@) == diag_models(old(self).errors@) + undriven_read_errors(
                old(self).objects@,
                old(self).reads@,
                old(self).creates@,
                old(self).drives@,
            ),
    {
        let checker = DriverReadCompletenessChecker::new(
            &self.objects,
            self.drives.as_slice(),
            self.reads.as_slice(),
            self.creates.as_slice(),
        );
        let found = checker.collect_errors();
        append(&mut self.errors, found);
    }

    /// Adds a diagnostic for each required signal that is not driven
    /// everywhere.
    pub fn collect_signal_activity(&mut self)
        requires
            old(self).objects.wf(),
        ensures
            final(self).eir == old(self).eir,
            final(self).objects == old(self).objects,
            final(self).drives == old(self).drives,
            final(self).reads == old(self).reads,
            final(self).creates == old(self).creates,
            diag_models(final(self).errors@) == diag_models(old(self).errors@) + activity_errors(
                old(self).objects@,
                old(self).creates@,
                old(self).drives@,
            ),
    {
        let checker = DriverSignalActivityChecker::new(
            self.creates.as_slice(),
            self.drives.as_slice(),
            &self.objects,
        );
        let found = checker.collect_errors();
        append(&mut self.errors, found);
    }

    /// Whether `module` has storage named `name`.
    fn is_reg(&self, module: &str, name: &str) -> (r: bool)
        ensures
            r == reg_views(self.regs@).contains((module@, name@)),
    {
        let mut i: usize = 0;
        while i < self.regs.len()
            invariant
                i <= self.regs.len(),
                forall|j: int| 0 <= j < i ==> reg_views(self.regs@)[j] != (module@, name@),
            decreases self.regs.len() - i,
        {
            if str_eq(self.regs[i].0.as_str(), module) && str_eq(self.regs[i].1.as_str(), name) {
                proof {
                    assert(reg_views(self.regs@)[i as int] == (module@, name@));
                }
                return true;
            }
            i = i + 1;
        }
        false
    }
}

} // verus!
