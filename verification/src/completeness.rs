//! Whether everything that must be driven is: every output port of a
//! defined module, every read of a local signal, every required signal;
//! and the whole run of the driver checks over a design.
use crate::bound::{BoundModel, DriverBound, bound_value, eir_bound_model};
use crate::coverage::{
    ClaimModel, CoverageClaim, SegmentCoverage, SignalCoverageClaim, SignalSegmentCoverage,
    claim_models, claim_segments, clipped_claims, segments_covered, signal_claim_models,
    signal_segments,
};
use crate::design::DriverDrcReport;
use crate::drc::{
    DiagnosticModel, DriverDiagnostic, DriverDrcChecker, DriverError, ErrorSpec, diag_model,
    diag_models, drive_check_state, plain_diag, read_errors,
};
use crate::eir::{EirDesign, EirDirection, EirModule, EirModuleKind, EirPort};
use crate::facts::{CreateFact, CreateKind, DriveFact, DriverFacts, EirSignalActivity, ReadFact};
use crate::guard::{EirGuard, EirGuardFrame, frames_equal};
use crate::guard_coverage::{
    GuardCoverage, frames_cover, guard_paths, lemma_cover_equal, paths_equal, residuals,
};
use crate::loop_bounds::non_loop_frames;
use crate::place::{DriverObjectTable, DriverPlace, ObjectId, TableModel, key_position, place_text};
use crate::port_coverage::{
    CoverageExtractor, CoverageRoot, ReadRoot, SignalCoverageExtractor, SymbolicLoopCoverage,
    ends, guard_frames, guarded_drive_covers, place_ends, place_object_id, root_matches,
    signal_place_ends,
};
use crate::range::DriverStaticRange;
use vstd::prelude::*;

verus! {

// ---------------------------------------------------------------------------
// What the drives of a module claim
// ---------------------------------------------------------------------------

/// The identity the table gives an object, if it is recorded.
pub open spec fn table_id(table: TableModel, module: Seq<char>, name: Seq<char>) -> Option<ObjectId> {
    match key_position(table.keys, (module, name)) {
        Some(i) => Some(ObjectId(i as usize)),
        None => None,
    }
}

/// The constant width recorded for an object, if there is one.
pub open spec fn table_width(table: TableModel, id: ObjectId) -> Option<u64> {
    if table.widths.contains_key(id.0) {
        bound_value(table.widths[id.0])
    } else {
        None
    }
}

/// The guards of the drives in `module` of the whole root, in order.
pub open spec fn whole_root_guards<'a>(
    drives: Seq<DriveFact>,
    module: Seq<char>,
    root: CoverageRoot,
    name: Seq<char>,
) -> Seq<&'a EirGuard>
    decreases drives.len(),
{
    if drives.len() == 0 {
        Seq::empty()
    } else {
        let rest = whole_root_guards(drives.drop_last(), module, root, name);
        let d = drives.last();
        if d.module@ == module && root_matches(root, d.target, name) {
            rest.push(&d.guard)
        } else {
            rest
        }
    }
}

/// The bits of the root each drive in `module` covers where that is known,
/// with the drive's guard, in order.
pub open spec fn root_claims<'a>(
    drives: Seq<DriveFact>,
    module: Seq<char>,
    name: Seq<char>,
    root: CoverageRoot,
    root_range: (u64, u64),
) -> Seq<ClaimModel<'a>>
    decreases drives.len(),
{
    if drives.len() == 0 {
        Seq::empty()
    } else {
        let rest = root_claims(drives.drop_last(), module, name, root, root_range);
        let d = drives.last();
        if d.module@ == module {
            match place_ends(name, root, root_range, d.target) {
                Some((l, h)) => rest.push((l, h, &d.guard)),
                None => rest,
            }
        } else {
            rest
        }
    }
}

/// The bits of a signal each drive in `module` covers where that is known,
/// with the drive's guard, in order.
pub open spec fn signal_claims<'a>(
    drives: Seq<DriveFact>,
    module: Seq<char>,
    id: ObjectId,
    root_range: (u64, u64),
) -> Seq<ClaimModel<'a>>
    decreases drives.len(),
{
    if drives.len() == 0 {
        Seq::empty()
    } else {
        let rest = signal_claims(drives.drop_last(), module, id, root_range);
        let d = drives.last();
        if d.module@ == module {
            match signal_place_ends(id, root_range, d.target) {
                Some((l, h)) => rest.push((l, h, &d.guard)),
                None => rest,
            }
        } else {
            rest
        }
    }
}

/// The scopes around the loops of the drives in `module` that cover the
/// whole port inside a single loop, in order.
pub open spec fn loop_residual_paths(
    drives: Seq<DriveFact>,
    module: Seq<char>,
    name: Seq<char>,
    root: CoverageRoot,
    width: BoundModel,
) -> Seq<Seq<EirGuardFrame>>
    decreases drives.len(),
{
    if drives.len() == 0 {
        Seq::empty()
    } else {
        let rest = loop_residual_paths(drives.drop_last(), module, name, root, width);
        let d = drives.last();
        if d.module@ == module && guarded_drive_covers(d.target, name, root, d.guard.frames@, width) {
            rest.push(non_loop_frames(d.guard.frames@))
        } else {
            rest
        }
    }
}

/// The claims on `rl..=rh` cut it into segments each covered by the
/// guards of the claims containing it, inside the context where there is
/// one.
pub open spec fn claims_cover<'a>(
    claims: Seq<ClaimModel<'a>>,
    rl: u64,
    rh: u64,
    context: Option<Seq<EirGuardFrame>>,
) -> bool {
    let clipped = clipped_claims(claims, rl, rh);
    segments_covered(claim_segments(rl, rh, clipped), clipped, context)
}

// ---------------------------------------------------------------------------
// Output ports
// ---------------------------------------------------------------------------

/// An output port is driven everywhere: where its width is a constant, its
/// bits are covered by the drives in its module; where it is symbolic, the
/// drives of the whole port cover every case, or loops over the width do.
pub open spec fn port_complete(
    table: TableModel,
    module: Seq<char>,
    port: EirPort,
    drives: Seq<DriveFact>,
) -> bool {
    let root = CoverageRoot { object_id: table_id(table, module, port.name@) };
    match bound_value(eir_bound_model(port.width)) {
        None => frames_cover(guard_paths(whole_root_guards(drives, module, root, port.name@)))
            || frames_cover(
            loop_residual_paths(drives, module, port.name@, root, eir_bound_model(port.width)),
        ),
        Some(w) => w != 0 && claims_cover(
            root_claims(drives, module, port.name@, root, (0, (w - 1) as u64)),
            0,
            (w - 1) as u64,
            None,
        ),
    }
}

/// Checks one output port of a module against the drives.
pub struct PortCoverageChecker<'a> {
    pub module: &'a str,
    pub port: &'a EirPort,
    pub objects: &'a DriverObjectTable,
    pub drives: &'a [DriveFact],
}

impl<'a> PortCoverageChecker<'a> {
    /// A checker of `port` of `module`.
    pub fn new(
        module: &'a str,
        port: &'a EirPort,
        objects: &'a DriverObjectTable,
        drives: &'a [DriveFact],
    ) -> (r: Self)
        ensures
            r.module == module,
            r.port == port,
            r.objects == objects,
            r.drives == drives,
    {
        PortCoverageChecker { module, port, objects, drives }
    }

    /// The port is driven everywhere.
    pub fn is_complete(&self) -> (r: bool)
        requires
            self.objects.wf(),
        ensures
            r == port_complete(self.objects@, self.module@, *self.port, self.drives@),
    {
        let root = CoverageRoot::new(self.objects.object_id(self.module, self.port.name()));
        proof {
            assert(root.object_id == table_id(self.objects@, self.module@, self.port.name@));
        }
        let width = DriverBound::from_eir_bound(self.port.width_bound()).value();
        match width {
            None => {
                if self.whole_root_guards(root).covers_unconditionally() {
                    return true;
                }
                let coverage = self.symbolic_loop_coverage(root);
                let r = coverage.proves_complete();
                proof {
                    lemma_cover_equal(
                        guard_frames(coverage.residual_guards@),
                        loop_residual_paths(
                            self.drives@,
                            self.module@,
                            self.port.name@,
                            root,
                            eir_bound_model(self.port.width),
                        ),
                    );
                }
                r
            },
            Some(width) => {
                if width == 0 {
                    return false;
                }
                let required = DriverStaticRange::new(0, width - 1);
                let mut claims: Vec<CoverageClaim<'a>> = Vec::new();
                self.collect_static_claims(root, required, &mut claims);
                SegmentCoverage::new(required, claims).is_complete()
            },
        }
    }

    /// The guards around the loops of the drives that cover the whole port
    /// inside a single loop.
    pub fn symbolic_loop_coverage(&self, root: CoverageRoot) -> (r: SymbolicLoopCoverage<'a>)
        ensures
            r.root == root,
            paths_equal(
                guard_frames(r.residual_guards@),
                loop_residual_paths(
                    self.drives@,
                    self.module@,
                    self.port.name@,
                    root,
                    eir_bound_model(self.port.width),
                ),
            ),
    {
        let drives = self.drives;
        let mut coverage = SymbolicLoopCoverage::new(self.port.name(), self.port.width_bound(), root);
        let ghost width = eir_bound_model(self.port.width);
        let ghost name = self.port.name@;
        let mut i: usize = 0;
        proof {
            assert(drives@.take(0) =~= Seq::<DriveFact>::empty());
        }
        while i < drives.len()
            invariant
                i <= drives.len(),
                drives@ == self.drives@,
                coverage.root == root,
                coverage.root_name@ == name,
                coverage.port_width@ == width,
                paths_equal(
                    guard_frames(coverage.residual_guards@),
                    loop_residual_paths(drives@.take(i as int), self.module@, name, root, width),
                ),
            decreases drives.len() - i,
        {
            proof {
                assert(drives@.take(i + 1).drop_last() =~= drives@.take(i as int));
                assert(drives@.take(i + 1).last() == drives@[i as int]);
            }
            if crate::text::str_eq(drives[i].module(), self.module) {
                let ghost before = coverage.residual_guards@;
                coverage.add_drive(drives[i].target_place(), drives[i].guard());
                proof {
                    let after = coverage.residual_guards@;
                    let expected = loop_residual_paths(drives@.take(i + 1), self.module@, name, root, width);
                    if after.len() == before.len() + 1 {
                        assert(after.drop_last() == before);
                        assert forall|j: int| 0 <= j < expected.len() implies frames_equal(
                            #[trigger] guard_frames(after)[j],
                            expected[j],
                        ) by {
                            if j < before.len() {
                                assert(after[j] == before[j]);
                                assert(frames_equal(guard_frames(before)[j], expected[j]));
                            }
                        }
                    } else {
                        assert(after == before);
                    }
                }
            }
            i = i + 1;
        }
        proof {
            assert(drives@.take(drives@.len() as int) =~= drives@);
        }
        coverage
    }

    /// The guards of the drives of the whole port.
    pub fn whole_root_guards(&self, root: CoverageRoot) -> (r: GuardCoverage<'a>)
        ensures
            r.guards@ == whole_root_guards::<'a>(self.drives@, self.module@, root, self.port.name@),
    {
        module_root_guards(self.drives, self.module, root, self.port.name())
    }

    /// Adds a claim for each drive in the module whose bits of the port are
    /// known.
    pub fn collect_static_claims(
        &self,
        root: CoverageRoot,
        required: DriverStaticRange,
        claims: &mut Vec<CoverageClaim<'a>>,
    )
        requires
            required.wf(),
        ensures
            claim_models(final(claims)@) == claim_models(old(claims)@) + root_claims::<'a>(
                self.drives@,
                self.module@,
                self.port.name@,
                root,
                ends(required),
            ),
    {
        let extractor = CoverageExtractor::new(self.port.name(), root, required);
        push_root_claims(&extractor, self.drives, self.module, claims);
    }
}

/// The guards of the drives in `module` of the whole root.
fn module_root_guards<'a>(drives: &'a [DriveFact], module: &str, root: CoverageRoot, name: &str) -> (r:
    GuardCoverage<'a>)
    ensures
        r.guards@ == whole_root_guards::<'a>(drives@, module@, root, name@),
{
    let mut guards = GuardCoverage::new();
    let mut i: usize = 0;
    proof {
        assert(drives@.take(0) =~= Seq::<DriveFact>::empty());
    }
    while i < drives.len()
        invariant
            i <= drives.len(),
            guards.guards@ == whole_root_guards::<'a>(drives@.take(i as int), module@, root, name@),
        decreases drives.len() - i,
    {
        proof {
            assert(drives@.take(i + 1).drop_last() =~= drives@.take(i as int));
            assert(drives@.take(i + 1).last() == drives@[i as int]);
        }
        if crate::text::str_eq(drives[i].module(), module) && root.is_whole_root(
            drives[i].target_place(),
            name,
        ) {
            guards.add(drives[i].guard());
        }
        i = i + 1;
    }
    proof {
        assert(drives@.take(drives@.len() as int) =~= drives@);
    }
    guards
}

/// Adds a claim for each drive in `module` whose bits of the extractor's
/// root are known.
fn push_root_claims<'a>(
    extractor: &CoverageExtractor,
    drives: &'a [DriveFact],
    module: &str,
    claims: &mut Vec<CoverageClaim<'a>>,
)
    requires
        extractor.root_range.wf(),
    ensures
        claim_models(final(claims)@) == claim_models(old(claims)@) + root_claims::<'a>(
            drives@,
            module@,
            extractor.root@,
            extractor.root_object,
            ends(extractor.root_range),
        ),
{
    let ghost start = claim_models(claims@);
    let ghost rr = ends(extractor.root_range);
    let mut i: usize = 0;
    proof {
        assert(drives@.take(0) =~= Seq::<DriveFact>::empty());
        assert(start + Seq::<ClaimModel<'a>>::empty() =~= start);
    }
    while i < drives.len()
        invariant
            i <= drives.len(),
            extractor.root_range.wf(),
            rr == ends(extractor.root_range),
            start == claim_models(old(claims)@),
            claim_models(claims@) == start + root_claims::<'a>(
                drives@.take(i as int),
                module@,
                extractor.root@,
                extractor.root_object,
                rr,
            ),
        decreases drives.len() - i,
    {
        proof {
            assert(drives@.take(i + 1).drop_last() =~= drives@.take(i as int));
            assert(drives@.take(i + 1).last() == drives@[i as int]);
        }
        if crate::text::str_eq(drives[i].module(), module) {
            if let Some(range) = extractor.range_for(drives[i].target_place()) {
                let ghost before = claims@;
                let claim = CoverageClaim::new(range, drives[i].guard());
                claims.push(claim);
                proof {
                    assert(claim_models(claims@) =~= claim_models(before).push(
                        (range.low_spec(), range.high_spec(), &drives@[i as int].guard),
                    ));
                }
            }
        }
        i = i + 1;
    }
    proof {
        assert(drives@.take(drives@.len() as int) =~= drives@);
    }
}

/// The diagnostics of the output ports of one module that are not driven
/// everywhere, in order.
pub open spec fn port_errors(
    table: TableModel,
    module: Seq<char>,
    ports: Seq<EirPort>,
    drives: Seq<DriveFact>,
) -> Seq<DiagnosticModel>
    decreases ports.len(),
{
    if ports.len() == 0 {
        Seq::empty()
    } else {
        let rest = port_errors(table, module, ports.drop_last(), drives);
        let p = ports.last();
        if p.direction == EirDirection::Out && !port_complete(table, module, p, drives) {
            rest.push(plain_diag(ErrorSpec::UndrivenOut(p.name@), p.origin.span))
        } else {
            rest
        }
    }
}

/// The diagnostics of the output ports of defined modules that are not
/// driven everywhere, module by module.
pub open spec fn out_errors(table: TableModel, modules: Seq<EirModule>, drives: Seq<DriveFact>) -> Seq<
    DiagnosticModel,
>
    decreases modules.len(),
{
    if modules.len() == 0 {
        Seq::empty()
    } else {
        let rest = out_errors(table, modules.drop_last(), drives);
        let m = modules.last();
        if m.kind == EirModuleKind::Extern {
            rest
        } else {
            rest + port_errors(table, m.name@, m.ports@, drives)
        }
    }
}

/// Checks that every output port of every defined module is driven.
pub struct DriverCompletenessChecker<'a> {
    pub eir: &'a EirDesign,
    pub objects: &'a DriverObjectTable,
    pub drives: &'a [DriveFact],
}

impl<'a> DriverCompletenessChecker<'a> {
    /// A checker of the design against the drives.
    pub fn new(eir: &'a EirDesign, objects: &'a DriverObjectTable, drives: &'a [DriveFact]) -> (r:
        Self)
        ensures
            r.eir == eir,
            r.objects == objects,
            r.drives == drives,
    {
        DriverCompletenessChecker { eir, objects, drives }
    }

    /// A diagnostic for each output port that is not driven everywhere.
    pub fn collect_errors(&self) -> (r: Vec<DriverDiagnostic>)
        requires
            self.objects.wf(),
        ensures
            diag_models(r@) == out_errors(self.objects@, self.eir.raw.modules@, self.drives@),
    {
        let mut errors: Vec<DriverDiagnostic> = Vec::new();
        let modules = self.eir.modules();
        let mut m: usize = 0;
        proof {
            assert(modules@.take(0) =~= Seq::<EirModule>::empty());
            assert(diag_models(errors@) =~= Seq::<DiagnosticModel>::empty());
        }
        while m < modules.len()
            invariant
                m <= modules.len(),
                modules@ == self.eir.raw.modules@,
                self.objects.wf(),
                diag_models(errors@) == out_errors(
                    self.objects@,
                    modules@.take(m as int),
                    self.drives@,
                ),
            decreases modules.len() - m,
        {
            let module = &modules[m];
            let ghost before_module = diag_models(errors@);
            proof {
                assert(modules@.take(m + 1).drop_last() =~= modules@.take(m as int));
                assert(modules@.take(m + 1).last() == modules@[m as int]);
            }
            if !module.is_extern() {
                let ports = module.ports();
                let mut p: usize = 0;
                proof {
                    assert(ports@.take(0) =~= Seq::<EirPort>::empty());
                    assert(before_module + port_errors(self.objects@, module.name@, Seq::empty(), self.drives@)
                        =~= before_module);
                }
                while p < ports.len()
                    invariant
                        p <= ports.len(),
                        ports@ == module.ports@,
                        self.objects.wf(),
                        diag_models(errors@) == before_module + port_errors(
                            self.objects@,
                            module.name@,
                            ports@.take(p as int),
                            self.drives@,
                        ),
                    decreases ports.len() - p,
                {
                    let port = &ports[p];
                    proof {
                        assert(ports@.take(p + 1).drop_last() =~= ports@.take(p as int));
                        assert(ports@.take(p + 1).last() == ports@[p as int]);
                    }
                    if port.direction() == EirDirection::Out {
                        let coverage = PortCoverageChecker::new(module.name(), port, self.objects, self.drives);
                        if !coverage.is_complete() {
                            let ghost before = errors@;
                            let e = DriverDiagnostic::driver_error(
                                DriverError::UndrivenOut { name: port.name().to_owned() },
                                port.origin().span(),
                            );
                            errors.push(e);
                            proof {
                                assert(diag_model(e).related =~= Seq::<(crate::guard::Span, Seq<char>)>::empty());
                                assert(diag_models(errors@) =~= diag_models(before).push(diag_model(e)));
                            }
                        }
                    }
                    p = p + 1;
                }
                proof {
                    assert(ports@.take(ports@.len() as int) =~= ports@);
                }
            } else {
                proof {
                    assert(before_module + Seq::<DiagnosticModel>::empty() =~= before_module);
                }
            }
            m = m + 1;
        }
        proof {
            assert(modules@.take(modules@.len() as int) =~= modules@);
        }
        errors
    }
}

// ---------------------------------------------------------------------------
// Reads of local signals
// ---------------------------------------------------------------------------

/// The position of the first signal with the given identity, from `start`
/// on.
pub open spec fn signal_index_from(creates: Seq<CreateFact>, id: ObjectId, start: int) -> Option<int>
    decreases creates.len() - start,
{
    if start < 0 || start >= creates.len() {
        None
    } else if creates[start].object_id == id && creates[start].kind == CreateKind::Signal {
        Some(start)
    } else {
        signal_index_from(creates, id, start + 1)
    }
}

/// The position of the signal a read place is rooted at, if it is rooted
/// at a signal of the design.
pub open spec fn read_signal(creates: Seq<CreateFact>, place: DriverPlace) -> Option<int> {
    match place_object_id(place) {
        Some(id) => signal_index_from(creates, id, 0),
        None => None,
    }
}

impl<'a> ReadRoot<'a> {
    /// The signal the read place is rooted at, if it is a signal of the
    /// design.
    pub fn local_signal<'b>(&self, creates: &'b [CreateFact]) -> (r: Option<&'b CreateFact>)
        ensures
            match read_signal(creates@, *self.place) {
                Some(i) => r == Some(&creates@[i]),
                None => r is None,
            },
    {
        let id = match self.object_id() {
            Some(id) => id,
            None => {
                return None;
            },
        };
        let mut i: usize = 0;
        while i < creates.len()
            invariant
                i <= creates.len(),
                place_object_id(*self.place) == Some(id),
                signal_index_from(creates@, id, i as int) == signal_index_from(creates@, id, 0),
            decreases creates.len() - i,
        {
            if creates[i].object_id() == id && creates[i].kind() == CreateKind::Signal {
                return Some(&creates[i]);
            }
            i = i + 1;
        }
        None
    }
}

/// A read is covered by the drives in its module: where the signal's width
/// is a constant, the read bits are covered inside the read's scopes by the
/// drives with known bits; otherwise the drives of the whole signal cover
/// the read's scopes.
pub open spec fn read_complete(
    table: TableModel,
    root: CreateFact,
    read: ReadFact,
    drives: Seq<DriveFact>,
) -> bool {
    let object = CoverageRoot { object_id: Some(root.object_id) };
    match table_width(table, root.object_id) {
        None => frames_cover(
            residuals(whole_root_guards(drives, read.module@, object, root.name@), read.guard.frames@),
        ),
        Some(w) => w != 0 && match place_ends(root.name@, object, (0, (w - 1) as u64), read.source) {
            Some((rl, rh)) => claims_cover(
                root_claims(drives, read.module@, root.name@, object, (rl, rh)),
                rl,
                rh,
                Some(read.guard.frames@),
            ),
            None => false,
        },
    }
}

/// Checks one read of a local signal against the drives.
pub struct ReadCoverageChecker<'a> {
    pub root: &'a CreateFact,
    pub read: &'a ReadFact,
    pub objects: &'a DriverObjectTable,
    pub drives: &'a [DriveFact],
}

impl<'a> ReadCoverageChecker<'a> {
    /// A checker of `read` of the signal `root`.
    pub fn new(
        root: &'a CreateFact,
        read: &'a ReadFact,
        objects: &'a DriverObjectTable,
        drives: &'a [DriveFact],
    ) -> (r: Self)
        ensures
            r.root == root,
            r.read == read,
            r.objects == objects,
            r.drives == drives,
    {
        ReadCoverageChecker { root, read, objects, drives }
    }

    /// The read is covered everywhere it happens.
    pub fn is_complete(&self) -> (r: bool)
        requires
            self.objects.wf(),
        ensures
            r == read_complete(self.objects@, *self.root, *self.read, self.drives@),
    {
        let root = CoverageRoot::new(Some(self.root.object_id()));
        let width = match self.objects.width(self.root.object_id()) {
            Some(w) => w.value(),
            None => None,
        };
        match width {
            None => self.whole_root_guards(root).covers_under(self.read.guard()),
            Some(width) => {
                if width == 0 {
                    return false;
                }
                let required = match self.read_range(root, width) {
                    Some(r) => r,
                    None => {
                        return false;
                    },
                };
                let mut claims: Vec<CoverageClaim<'a>> = Vec::new();
                let extractor = CoverageExtractor::new(self.root.name(), root, required);
                push_root_claims(&extractor, self.drives, self.read.module(), &mut claims);
                SegmentCoverage::new(required, claims).is_complete_under(self.read.guard())
            },
        }
    }

    /// The bits of the signal the read covers, where they are known.
    pub fn read_range(&self, root: CoverageRoot, width: u64) -> (r: Option<DriverStaticRange>)
        ensures
            width == 0 ==> r is None,
            width > 0 ==> match place_ends(self.root.name@, root, (0, (width - 1) as u64), self.read.source) {
                Some((l, h)) => r matches Some(s) && s.wf() && ends(s) == (l, h),
                None => r is None,
            },
    {
        if width == 0 {
            return None;
        }
        let required = DriverStaticRange::new(0, width - 1);
        CoverageExtractor::new(self.root.name(), root, required).range_for(self.read.source_place())
    }

    /// The guards of the drives of the whole signal in the read's module.
    pub fn whole_root_guards(&self, root: CoverageRoot) -> (r: GuardCoverage<'a>)
        ensures
            r.guards@ == whole_root_guards::<'a>(self.drives@, self.read.module@, root, self.root.name@),
    {
        module_root_guards(self.drives, self.read.module(), root, self.root.name())
    }
}

/// The diagnostics of the reads of local signals that are not covered, in
/// order.
pub open spec fn undriven_read_errors(
    table: TableModel,
    reads: Seq<ReadFact>,
    creates: Seq<CreateFact>,
    drives: Seq<DriveFact>,
) -> Seq<DiagnosticModel>
    decreases reads.len(),
{
    if reads.len() == 0 {
        Seq::empty()
    } else {
        let rest = undriven_read_errors(table, reads.drop_last(), creates, drives);
        let r = reads.last();
        match read_signal(creates, r.source) {
            Some(i) => if read_complete(table, creates[i], r, drives) {
                rest
            } else {
                rest.push(plain_diag(ErrorSpec::UndrivenRead(place_text(r.source)), r.origin.span))
            },
            None => rest,
        }
    }
}

/// Checks that every read of a local signal is covered by drives.
pub struct DriverReadCompletenessChecker<'a> {
    pub objects: &'a DriverObjectTable,
    pub drives: &'a [DriveFact],
    pub reads: &'a [ReadFact],
    pub creates: &'a [CreateFact],
}

impl<'a> DriverReadCompletenessChecker<'a> {
    /// A checker of the reads against the drives.
    pub fn new(
        objects: &'a DriverObjectTable,
        drives: &'a [DriveFact],
        reads: &'a [ReadFact],
        creates: &'a [CreateFact],
    ) -> (r: Self)
        ensures
            r.objects == objects,
            r.drives == drives,
            r.reads == reads,
            r.creates == creates,
    {
        DriverReadCompletenessChecker { objects, drives, reads, creates }
    }

    /// A diagnostic for each read of a local signal that is not covered.
    pub fn collect_errors(&self) -> (r: Vec<DriverDiagnostic>)
        requires
            self.objects.wf(),
        ensures
            diag_models(r@) == undriven_read_errors(
                self.objects@,
                self.reads@,
                self.creates@,
                self.drives@,
            ),
    {
        let mut errors: Vec<DriverDiagnostic> = Vec::new();
        let reads = self.reads;
        let mut i: usize = 0;
        proof {
            assert(reads@.take(0) =~= Seq::<ReadFact>::empty());
            assert(diag_models(errors@) =~= Seq::<DiagnosticModel>::empty());
        }
        while i < reads.len()
            invariant
                i <= reads.len(),
                reads@ == self.reads@,
                self.objects.wf(),
                diag_models(errors@) == undriven_read_errors(
                    self.objects@,
                    reads@.take(i as int),
                    self.creates@,
                    self.drives@,
                ),
            decreases reads.len() - i,
        {
            let read = &reads[i];
            proof {
                assert(reads@.take(i + 1).drop_last() =~= reads@.take(i as int));
                assert(reads@.take(i + 1).last() == reads@[i as int]);
            }
            if let Some(root) = ReadRoot::new(read.source_place()).local_signal(self.creates) {
                let coverage = ReadCoverageChecker::new(root, read, self.objects, self.drives);
                if !coverage.is_complete() {
                    let ghost before = errors@;
                    let e = DriverDiagnostic::driver_error(
                        DriverError::UndrivenRead { name: read.source_place().display() },
                        read.origin().span(),
                    );
                    errors.push(e);
                    proof {
                        assert(diag_model(e).related =~= Seq::<(crate::guard::Span, Seq<char>)>::empty());
                        assert(diag_models(errors@) =~= diag_models(before).push(diag_model(e)));
                    }
                }
            }
            i = i + 1;
        }
        proof {
            assert(reads@.take(reads@.len() as int) =~= reads@);
        }
        errors
    }
}

// ---------------------------------------------------------------------------
// Required signals
// ---------------------------------------------------------------------------

/// A signal is driven everywhere by the drives in its module: where its
/// width is a constant, every bit; otherwise as a whole.
pub open spec fn signal_complete(table: TableModel, create: CreateFact, drives: Seq<DriveFact>) -> bool {
    let root = CoverageRoot { object_id: Some(create.object_id) };
    match table_width(table, create.object_id) {
        None => frames_cover(guard_paths(whole_root_guards(drives, create.module@, root, create.name@))),
        Some(w) => w != 0 && {
            let claims = signal_claims(drives, create.module@, create.object_id, (0, (w - 1) as u64));
            let clipped = clipped_claims(claims, 0, (w - 1) as u64);
            segments_covered(signal_segments(0, (w - 1) as u64, clipped), clipped, None)
        },
    }
}

/// Checks one signal against the drives.
pub struct SignalCoverage<'a> {
    pub create: &'a CreateFact,
    pub drives: &'a [DriveFact],
    pub objects: &'a DriverObjectTable,
}

impl<'a> SignalCoverage<'a> {
    /// A checker of the signal `create`.
    pub fn new(create: &'a CreateFact, drives: &'a [DriveFact], objects: &'a DriverObjectTable) -> (r:
        Self)
        ensures
            r.create == create,
            r.drives == drives,
            r.objects == objects,
    {
        SignalCoverage { create, drives, objects }
    }

    /// The signal is driven everywhere.
    pub fn is_complete(&self) -> (r: bool)
        requires
            self.objects.wf(),
        ensures
            r == signal_complete(self.objects@, *self.create, self.drives@),
    {
        let width = match self.objects.width(self.create.object_id()) {
            Some(w) => w.value(),
            None => None,
        };
        match width {
            None => self.whole_root_guards().covers_unconditionally(),
            Some(width) => {
                if width == 0 {
                    return false;
                }
                let required = DriverStaticRange::new(0, width - 1);
                let extractor = SignalCoverageExtractor::new(self.create.object_id(), required);
                let drives = self.drives;
                let mut claims: Vec<SignalCoverageClaim<'a>> = Vec::new();
                let ghost rr = ends(required);
                let mut i: usize = 0;
                proof {
                    assert(drives@.take(0) =~= Seq::<DriveFact>::empty());
                    assert(signal_claim_models(claims@) =~= Seq::<ClaimModel<'a>>::empty());
                }
                while i < drives.len()
                    invariant
                        i <= drives.len(),
                        drives@ == self.drives@,
                        required.wf(),
                        rr == ends(required),
                        extractor.object_id == self.create.object_id,
                        extractor.root_range == required,
                        signal_claim_models(claims@) == signal_claims::<'a>(
                            drives@.take(i as int),
                            self.create.module@,
                            self.create.object_id,
                            rr,
                        ),
                    decreases drives.len() - i,
                {
                    proof {
                        assert(drives@.take(i + 1).drop_last() =~= drives@.take(i as int));
                        assert(drives@.take(i + 1).last() == drives@[i as int]);
                    }
                    if crate::text::str_eq(drives[i].module(), self.create.module()) {
                        if let Some(range) = extractor.range_for(drives[i].target_place()) {
                            let ghost before = claims@;
                            let claim = SignalCoverageClaim::new(range, drives[i].guard());
                            claims.push(claim);
                            proof {
                                assert(signal_claim_models(claims@) =~= signal_claim_models(before).push(
                                    (range.low_spec(), range.high_spec(), &drives@[i as int].guard),
                                ));
                            }
                        }
                    }
                    i = i + 1;
                }
                proof {
                    assert(drives@.take(drives@.len() as int) =~= drives@);
                }
                SignalSegmentCoverage::new(required, claims).is_complete()
            },
        }
    }

    /// The guards of the drives of the whole signal in its module.
    pub fn whole_root_guards(&self) -> (r: GuardCoverage<'a>)
        ensures
            r.guards@ == whole_root_guards::<'a>(
                self.drives@,
                self.create.module@,
                CoverageRoot { object_id: Some(self.create.object_id) },
                self.create.name@,
            ),
    {
        module_root_guards(
            self.drives,
            self.create.module(),
            CoverageRoot::new(Some(self.create.object_id())),
            self.create.name(),
        )
    }
}

/// The diagnostics of the required signals that are not driven everywhere,
/// in order.
pub open spec fn activity_errors(table: TableModel, creates: Seq<CreateFact>, drives: Seq<DriveFact>) -> Seq<
    DiagnosticModel,
>
    decreases creates.len(),
{
    if creates.len() == 0 {
        Seq::empty()
    } else {
        let rest = activity_errors(table, creates.drop_last(), drives);
        let c = creates.last();
        if c.kind == CreateKind::Signal && c.activity == EirSignalActivity::Required
            && !signal_complete(table, c, drives) {
            rest.push(plain_diag(ErrorSpec::UndrivenSignal(c.name@), c.origin.span))
        } else {
            rest
        }
    }
}

/// Checks that every required signal is driven.
pub struct DriverSignalActivityChecker<'a> {
    pub creates: &'a [CreateFact],
    pub drives: &'a [DriveFact],
    pub objects: &'a DriverObjectTable,
}

impl<'a> DriverSignalActivityChecker<'a> {
    /// A checker of the created signals against the drives.
    pub fn new(creates: &'a [CreateFact], drives: &'a [DriveFact], objects: &'a DriverObjectTable) -> (r:
        Self)
        ensures
            r.creates == creates,
            r.drives == drives,
            r.objects == objects,
    {
        DriverSignalActivityChecker { creates, drives, objects }
    }

    /// A diagnostic for each required signal that is not driven everywhere.
    pub fn collect_errors(&self) -> (r: Vec<DriverDiagnostic>)
        requires
            self.objects.wf(),
        ensures
            diag_models(r@) == activity_errors(self.objects@, self.creates@, self.drives@),
    {
        let mut errors: Vec<DriverDiagnostic> = Vec::new();
        let creates = self.creates;
        let mut i: usize = 0;
        proof {
            assert(creates@.take(0) =~= Seq::<CreateFact>::empty());
            assert(diag_models(errors@) =~= Seq::<DiagnosticModel>::empty());
        }
        while i < creates.len()
            invariant
                i <= creates.len(),
                creates@ == self.creates@,
                self.objects.wf(),
                diag_models(errors@) == activity_errors(
                    self.objects@,
                    creates@.take(i as int),
                    self.drives@,
                ),
            decreases creates.len() - i,
        {
            let create = &creates[i];
            proof {
                assert(creates@.take(i + 1).drop_last() =~= creates@.take(i as int));
                assert(creates@.take(i + 1).last() == creates@[i as int]);
            }
            if create.kind() == CreateKind::Signal && create.activity() == EirSignalActivity::Required {
                if !SignalCoverage::new(create, self.drives, self.objects).is_complete() {
                    let ghost before = errors@;
                    let e = DriverDiagnostic::driver_error(
                        DriverError::UndrivenSignal { name: create.name().to_owned() },
                        create.origin().span(),
                    );
                    errors.push(e);
                    proof {
                        assert(diag_model(e).related =~= Seq::<(crate::guard::Span, Seq<char>)>::empty());
                        assert(diag_models(errors@) =~= diag_models(before).push(diag_model(e)));
                    }
                }
            }
            i = i + 1;
        }
        proof {
            assert(creates@.take(creates@.len() as int) =~= creates@);
        }
        errors
    }
}

// ---------------------------------------------------------------------------
// The whole run
// ---------------------------------------------------------------------------

/// Everything the driver checks find wrong with the facts of a design, in
/// the order they are checked: drives, reads, output ports, reads of local
/// signals, required signals.
pub open spec fn drc_errors(eir: EirDesign, facts: DriverFacts) -> Seq<DiagnosticModel> {
    let table = facts.objects@;
    drive_check_state(
        facts.creates@,
        table.widths,
        facts.drives@,
        facts.drives@.len() as int,
    ).0 + read_errors(table.widths, facts.reads@) + out_errors(table, eir.raw.modules@, facts.drives@)
        + undriven_read_errors(table, facts.reads@, facts.creates@, facts.drives@) + activity_errors(
        table,
        facts.creates@,
        facts.drives@,
    )
}

impl<'a> DriverDrcChecker<'a> {
    /// Runs every check; the counts of modules, drives, reads and created
    /// objects where nothing is wrong, else every diagnostic found.
    pub fn check_collect(self) -> (r: Result<DriverDrcReport, Vec<DriverDiagnostic>>)
        requires
            self.facts.objects.wf(),
            self.errors@.len() == 0,
        ensures
            match r {
                Ok(report) => drc_errors(*self.eir, *self.facts).len() == 0
                    && report.module_count == self.eir.raw.modules@.len()
                    && report.drive_count == self.facts.drives@.len()
                    && report.read_count == self.facts.reads@.len()
                    && report.create_count == self.facts.creates@.len(),
                Err(e) => drc_errors(*self.eir, *self.facts).len() > 0 && diag_models(e@) == drc_errors(
                    *self.eir,
                    *self.facts,
                ),
            },
    {
        let ghost eir = *self.eir;
        let ghost facts = *self.facts;
        let mut this = self;
        proof {
            assert(diag_models(this.errors@) =~= Seq::<DiagnosticModel>::empty());
        }
        this.check_drive_facts();
        this.check_read_facts();
        this.collect_out_completeness();
        this.collect_read_completeness();
        this.collect_signal_activity();
        proof {
            assert(*this.eir == eir);
            assert(*this.facts == facts);
            assert(diag_models(this.errors@) =~= drc_errors(eir, facts));
            assert(diag_models(this.errors@).len() == this.errors@.len());
        }
        if this.errors.len() > 0 {
            return Err(this.errors);
        }
        Ok(
            DriverDrcReport::new(
                this.eir.modules().len(),
                this.facts.drives().len(),
                this.facts.reads().len(),
                this.facts.creates().len(),
            ),
        )
    }

    /// Adds a diagnostic for each output port that is not driven everywhere.
    pub fn collect_out_completeness(&mut self)
        requires
            old(self).facts.objects.wf(),
        ensures
            final(self).eir == old(self).eir,
            final(self).facts == old(self).facts,
            diag_models(final(self).errors@) == diag_models(old(self).errors@) + out_errors(
                old(self).facts.objects@,
                old(self).eir.raw.modules@,
                old(self).facts.drives@,
            ),
    {
        let checker = DriverCompletenessChecker::new(self.eir, &self.facts.objects, self.facts.drives());
        let found = checker.collect_errors();
        append_diagnostics(&mut self.errors, found);
    }

    /// Adds a diagnostic for each read of a local signal that is not covered.
    pub fn collect_read_completeness(&mut self)
        requires
            old(self).facts.objects.wf(),
        ensures
            final(self).eir == old(self).eir,
            final(self).facts == old(self).facts,
            diag_models(final(self).errors@) == diag_models(old(self).errors@) + undriven_read_errors(
                old(self).facts.objects@,
                old(self).facts.reads@,
                old(self).facts.creates@,
                old(self).facts.drives@,
            ),
    {
        let checker = DriverReadCompletenessChecker::new(
            &self.facts.objects,
            self.facts.drives(),
            self.facts.reads(),
            self.facts.creates(),
        );
        let found = checker.collect_errors();
        append_diagnostics(&mut self.errors, found);
    }

    /// Adds a diagnostic for each required signal that is not driven
    /// everywhere.
    pub fn collect_signal_activity(&mut self)
        requires
            old(self).facts.objects.wf(),
        ensures
            final(self).eir == old(self).eir,
            final(self).facts == old(self).facts,
            diag_models(final(self).errors@) == diag_models(old(self).errors@) + activity_errors(
                old(self).facts.objects@,
                old(self).facts.creates@,
                old(self).facts.drives@,
            ),
    {
        let checker = DriverSignalActivityChecker::new(
            self.facts.creates(),
            self.facts.drives(),
            &self.facts.objects,
        );
        let found = checker.collect_errors();
        append_diagnostics(&mut self.errors, found);
    }
}

/// Appends diagnostics in order.
fn append_diagnostics(errors: &mut Vec<DriverDiagnostic>, found: Vec<DriverDiagnostic>)
    ensures
        diag_models(final(errors)@) == diag_models(old(errors)@) + diag_models(found@),
{
    let mut found = found;
    let ghost before = errors@;
    let ghost added = found@;
    errors.append(&mut found);
    proof {
        assert(diag_models(errors@) =~= diag_models(before) + diag_models(added));
    }
}


// ---------------------------------------------------------------------------
// What a clean run promises
// ---------------------------------------------------------------------------

proof fn lemma_no_port_errors(table: TableModel, module: Seq<char>, ports: Seq<EirPort>, drives: Seq<DriveFact>, i: int)
    requires
        port_errors(table, module, ports, drives).len() == 0,
        0 <= i < ports.len(),
        ports[i].direction == EirDirection::Out,
    ensures
        port_complete(table, module, ports[i], drives),
    decreases ports.len(),
{
    if i < ports.len() - 1 {
        lemma_no_port_errors(table, module, ports.drop_last(), drives, i);
    }
}

proof fn lemma_no_out_errors(table: TableModel, modules: Seq<EirModule>, drives: Seq<DriveFact>, m: int, i: int)
    requires
        out_errors(table, modules, drives).len() == 0,
        0 <= m < modules.len(),
        modules[m].kind == EirModuleKind::Defined,
        0 <= i < modules[m].ports@.len(),
        modules[m].ports@[i].direction == EirDirection::Out,
    ensures
        port_complete(table, modules[m].name@, modules[m].ports@[i], drives),
    decreases modules.len(),
{
    if m < modules.len() - 1 {
        lemma_no_out_errors(table, modules.drop_last(), drives, m, i);
    } else {
        lemma_no_port_errors(table, modules[m].name@, modules[m].ports@, drives, i);
    }
}

proof fn lemma_no_read_errors(
    table: TableModel,
    reads: Seq<ReadFact>,
    creates: Seq<CreateFact>,
    drives: Seq<DriveFact>,
    i: int,
)
    requires
        undriven_read_errors(table, reads, creates, drives).len() == 0,
        0 <= i < reads.len(),
        read_signal(creates, reads[i].source) is Some,
    ensures
        read_complete(table, creates[read_signal(creates, reads[i].source)->0], reads[i], drives),
    decreases reads.len(),
{
    if i < reads.len() - 1 {
        lemma_no_read_errors(table, reads.drop_last(), creates, drives, i);
    }
}

proof fn lemma_no_activity_errors(table: TableModel, creates: Seq<CreateFact>, drives: Seq<DriveFact>, i: int)
    requires
        activity_errors(table, creates, drives).len() == 0,
        0 <= i < creates.len(),
        creates[i].kind == CreateKind::Signal,
        creates[i].activity == EirSignalActivity::Required,
    ensures
        signal_complete(table, creates[i], drives),
    decreases creates.len(),
{
    if i < creates.len() - 1 {
        lemma_no_activity_errors(table, creates.drop_last(), drives, i);
    }
}

/// The diagnostic that reports an output port as not driven everywhere.
pub open spec fn undriven_out_diag(port: EirPort) -> DiagnosticModel {
    plain_diag(ErrorSpec::UndrivenOut(port.name@), port.origin.span)
}

/// The ports of one module are reported exactly when they are output ports
/// that are not driven everywhere: every diagnostic names such a port, and
/// every such port gets a diagnostic. An input or inout port is never the
/// reason for a diagnostic, whatever the drives.
pub proof fn lemma_port_errors_are_undriven_outputs(
    table: TableModel,
    module: Seq<char>,
    ports: Seq<EirPort>,
    drives: Seq<DriveFact>,
)
    ensures
        forall|k: int|
            0 <= k < port_errors(table, module, ports, drives).len() ==> exists|i: int|
                0 <= i < ports.len() && ports[i].direction == EirDirection::Out && !port_complete(
                    table,
                    module,
                    ports[i],
                    drives,
                ) && #[trigger] port_errors(table, module, ports, drives)[k] == undriven_out_diag(
                    ports[i],
                ),
        forall|i: int|
            0 <= i < ports.len() && ports[i].direction == EirDirection::Out && !port_complete(
                table,
                module,
                #[trigger] ports[i],
                drives,
            ) ==> exists|k: int|
                0 <= k < port_errors(table, module, ports, drives).len() && port_errors(
                    table,
                    module,
                    ports,
                    drives,
                )[k] == undriven_out_diag(ports[i]),
    decreases ports.len(),
{
    if ports.len() > 0 {
        let front = ports.drop_last();
        lemma_port_errors_are_undriven_outputs(table, module, front, drives);
        let rest = port_errors(table, module, front, drives);
        let all = port_errors(table, module, ports, drives);
        let last = ports.len() - 1;
        let reported = ports[last].direction == EirDirection::Out && !port_complete(
            table,
            module,
            ports[last],
            drives,
        );
        assert(all.len() >= rest.len());
        assert(forall|k: int| 0 <= k < rest.len() ==> all[k] == rest[k]);
        assert forall|k: int| 0 <= k < all.len() implies exists|i: int|
            0 <= i < ports.len() && ports[i].direction == EirDirection::Out && !port_complete(
                table,
                module,
                ports[i],
                drives,
            ) && #[trigger] all[k] == undriven_out_diag(ports[i]) by {
            if k < rest.len() {
                let i = choose|i: int|
                    0 <= i < front.len() && front[i].direction == EirDirection::Out
                        && !port_complete(table, module, front[i], drives) && #[trigger] rest[k]
                        == undriven_out_diag(front[i]);
                assert(front[i] == ports[i]);
                assert(all[k] == undriven_out_diag(ports[i]));
            } else {
                assert(reported);
                assert(all[k] == undriven_out_diag(ports[last]));
            }
        }
        assert forall|i: int|
            0 <= i < ports.len() && ports[i].direction == EirDirection::Out && !port_complete(
                table,
                module,
                #[trigger] ports[i],
                drives,
            ) implies exists|k: int| 0 <= k < all.len() && all[k] == undriven_out_diag(ports[i]) by {
            if i < last {
                assert(front[i] == ports[i]);
                let k = choose|k: int| 0 <= k < rest.len() && rest[k] == undriven_out_diag(front[i]);
                assert(all[k] == undriven_out_diag(ports[i]));
            } else {
                assert(all[rest.len() as int] == undriven_out_diag(ports[i]));
            }
        }
    }
}

/// Whether `d` is the diagnostic of an output port of a defined module
/// that is not driven everywhere.
pub open spec fn names_undriven_output(
    table: TableModel,
    modules: Seq<EirModule>,
    drives: Seq<DriveFact>,
    d: DiagnosticModel,
) -> bool {
    exists|m: int, i: int|
        0 <= m < modules.len() && modules[m].kind != EirModuleKind::Extern && 0 <= i
            < modules[m].ports@.len() && modules[m].ports@[i].direction == EirDirection::Out
            && !port_complete(table, modules[m].name@, modules[m].ports@[i], drives) && d
            == undriven_out_diag(#[trigger] modules[m].ports@[i])
}

proof fn lemma_out_errors_sound(table: TableModel, modules: Seq<EirModule>, drives: Seq<DriveFact>)
    ensures
        forall|k: int|
            0 <= k < out_errors(table, modules, drives).len() ==> names_undriven_output(
                table,
                modules,
                drives,
                #[trigger] out_errors(table, modules, drives)[k],
            ),
    decreases modules.len(),
{
    if modules.len() > 0 {
        let front = modules.drop_last();
        lemma_out_errors_sound(table, front, drives);
        let rest = out_errors(table, front, drives);
        let all = out_errors(table, modules, drives);
        let last = modules.len() - 1;
        let lm = modules[last];
        assert forall|k: int| 0 <= k < all.len() implies names_undriven_output(
            table,
            modules,
            drives,
            #[trigger] all[k],
        ) by {
            if k < rest.len() {
                assert(all[k] == rest[k]);
                assert(names_undriven_output(table, front, drives, rest[k]));
                let (m, i) = choose|m: int, i: int|
                    0 <= m < front.len() && front[m].kind != EirModuleKind::Extern && 0 <= i
                        < front[m].ports@.len() && front[m].ports@[i].direction == EirDirection::Out
                        && !port_complete(table, front[m].name@, front[m].ports@[i], drives) && rest[k]
                        == undriven_out_diag(#[trigger] front[m].ports@[i]);
                assert(front[m] == modules[m]);
                assert(modules[m].ports@[i] == front[m].ports@[i]);
            } else {
                let own = port_errors(table, lm.name@, lm.ports@, drives);
                assert(lm.kind != EirModuleKind::Extern);
                assert(all == rest + own);
                let j = k - rest.len();
                assert(all[k] == own[j]);
                lemma_port_errors_are_undriven_outputs(table, lm.name@, lm.ports@, drives);
                let i = choose|i: int|
                    0 <= i < lm.ports@.len() && lm.ports@[i].direction == EirDirection::Out
                        && !port_complete(table, lm.name@, lm.ports@[i], drives) && #[trigger] own[j]
                        == undriven_out_diag(lm.ports@[i]);
                assert(modules[last].ports@[i] == lm.ports@[i]);
            }
        }
    }
}

proof fn lemma_out_errors_complete(table: TableModel, modules: Seq<EirModule>, drives: Seq<DriveFact>)
    ensures
        forall|m: int, i: int|
            0 <= m < modules.len() && modules[m].kind != EirModuleKind::Extern && 0 <= i
                < modules[m].ports@.len() && modules[m].ports@[i].direction == EirDirection::Out
                && !port_complete(table, modules[m].name@, #[trigger] modules[m].ports@[i], drives)
                ==> out_errors(table, modules, drives).contains(undriven_out_diag(modules[m].ports@[i])),
    decreases modules.len(),
{
    if modules.len() > 0 {
        let front = modules.drop_last();
        lemma_out_errors_complete(table, front, drives);
        let rest = out_errors(table, front, drives);
        let all = out_errors(table, modules, drives);
        let last = modules.len() - 1;
        let lm = modules[last];
        assert forall|m: int, i: int|
            0 <= m < modules.len() && modules[m].kind != EirModuleKind::Extern && 0 <= i
                < modules[m].ports@.len() && modules[m].ports@[i].direction == EirDirection::Out
                && !port_complete(table, modules[m].name@, #[trigger] modules[m].ports@[i], drives)
                implies all.contains(undriven_out_diag(modules[m].ports@[i])) by {
            let d = undriven_out_diag(modules[m].ports@[i]);
            if m < last {
                assert(front[m] == modules[m]);
                assert(front[m].ports@[i] == modules[m].ports@[i]);
                assert(rest.contains(d));
                let k = choose|k: int| 0 <= k < rest.len() && rest[k] == d;
                assert(all[k] == rest[k]);
            } else {
                let own = port_errors(table, lm.name@, lm.ports@, drives);
                assert(all == rest + own);
                lemma_port_errors_are_undriven_outputs(table, lm.name@, lm.ports@, drives);
                assert(lm.ports@[i] == modules[m].ports@[i]);
                let j = choose|j: int| 0 <= j < own.len() && own[j] == undriven_out_diag(lm.ports@[i]);
                assert(all[rest.len() + j] == own[j]);
            }
        }
    }
}

/// Over a whole design, the completeness of output ports reports exactly
/// the output ports of defined modules that are not driven everywhere:
/// every diagnostic names such a port, and every such port is reported.
/// A port of an extern module, or a port that is not an output, is never
/// the reason for a diagnostic, whatever the drives.
pub proof fn lemma_out_errors_are_undriven_outputs(
    table: TableModel,
    modules: Seq<EirModule>,
    drives: Seq<DriveFact>,
)
    ensures
        forall|k: int|
            0 <= k < out_errors(table, modules, drives).len() ==> names_undriven_output(
                table,
                modules,
                drives,
                #[trigger] out_errors(table, modules, drives)[k],
            ),
        forall|m: int, i: int|
            0 <= m < modules.len() && modules[m].kind != EirModuleKind::Extern && 0 <= i
                < modules[m].ports@.len() && modules[m].ports@[i].direction == EirDirection::Out
                && !port_complete(table, modules[m].name@, #[trigger] modules[m].ports@[i], drives)
                ==> out_errors(table, modules, drives).contains(undriven_out_diag(modules[m].ports@[i])),
{
    lemma_out_errors_sound(table, modules, drives);
    lemma_out_errors_complete(table, modules, drives);
}

/// When the driver checks find nothing wrong, every output port of every
/// defined module is driven everywhere, every read of a local signal is
/// covered, and every required signal is driven everywhere.
pub proof fn lemma_clean_design_is_driven(eir: EirDesign, facts: DriverFacts)
    requires
        drc_errors(eir, facts).len() == 0,
    ensures
        forall|m: int, i: int|
            0 <= m < eir.raw.modules@.len() && eir.raw.modules@[m].kind == EirModuleKind::Defined && 0
                <= i < eir.raw.modules@[m].ports@.len() && eir.raw.modules@[m].ports@[i].direction
                == EirDirection::Out ==> port_complete(
                facts.objects@,
                eir.raw.modules@[m].name@,
                #[trigger] eir.raw.modules@[m].ports@[i],
                facts.drives@,
            ),
        forall|i: int|
            0 <= i < facts.reads@.len() && read_signal(facts.creates@, #[trigger] facts.reads@[i].source)
                is Some ==> read_complete(
                facts.objects@,
                facts.creates@[read_signal(facts.creates@, facts.reads@[i].source)->0],
                facts.reads@[i],
                facts.drives@,
            ),
        forall|i: int|
            0 <= i < facts.creates@.len() && (#[trigger] facts.creates@[i]).kind == CreateKind::Signal
                && facts.creates@[i].activity == EirSignalActivity::Required ==> signal_complete(
                facts.objects@,
                facts.creates@[i],
                facts.drives@,
            ),
{
    let table = facts.objects@;
    let o = out_errors(table, eir.raw.modules@, facts.drives@);
    let u = undriven_read_errors(table, facts.reads@, facts.creates@, facts.drives@);
    let a = activity_errors(table, facts.creates@, facts.drives@);
    assert(o.len() == 0 && u.len() == 0 && a.len() == 0);
    assert forall|m: int, i: int|
        0 <= m < eir.raw.modules@.len() && eir.raw.modules@[m].kind == EirModuleKind::Defined && 0 <= i
            < eir.raw.modules@[m].ports@.len() && eir.raw.modules@[m].ports@[i].direction
            == EirDirection::Out implies port_complete(
        table,
        eir.raw.modules@[m].name@,
        #[trigger] eir.raw.modules@[m].ports@[i],
        facts.drives@,
    ) by {
        lemma_no_out_errors(table, eir.raw.modules@, facts.drives@, m, i);
    }
    assert forall|i: int|
        0 <= i < facts.reads@.len() && read_signal(facts.creates@, #[trigger] facts.reads@[i].source)
            is Some implies read_complete(
        table,
        facts.creates@[read_signal(facts.creates@, facts.reads@[i].source)->0],
        facts.reads@[i],
        facts.drives@,
    ) by {
        lemma_no_read_errors(table, facts.reads@, facts.creates@, facts.drives@, i);
    }
    assert forall|i: int|
        0 <= i < facts.creates@.len() && (#[trigger] facts.creates@[i]).kind == CreateKind::Signal
            && facts.creates@[i].activity == EirSignalActivity::Required implies signal_complete(
        table,
        facts.creates@[i],
        facts.drives@,
    ) by {
        lemma_no_activity_errors(table, facts.creates@, facts.drives@, i);
    }
}

} // verus!
