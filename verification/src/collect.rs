//! Gathers the driver facts of a design: the object table with every port
//! and declared object, the created signals and storage, and each drive and
//! read with its place resolved against the table.
use crate::bound::{BoundModel, eir_bound_model};
use crate::drc::{DiagnosticModel, DriverDiagnostic, DriverError, ErrorSpec, diag_model, diag_models, plain_diag};
use crate::eir::{EirDesign, EirDrive, EirDriveKind, EirModule, EirObject, EirObjectKind, EirPort, EirRead};
use crate::expr::{EirExpr, EirPlace, same_expr};
use crate::facts::{
    CreateFact, CreateKind, DriveEffect, DriveFact, DriverFacts, EirOrigin, ReadFact, same_origin,
};
use crate::guard::{EirGuard, Span, frames_equal};
use crate::place::{
    DriverExpr, DriverObjectTable, DriverPlace, DriverPlaceError, DriverPlaceResolver, TableModel,
    key_position, place_text, resolve_error, resolves_to, root_name,
};
use crate::summary::{CellSummaryCollector, lemma_table_summaries, summaries_are};
use crate::source_cells::{OpaqueModel, OpaqueSummaryTable, modules_instances, source_summaries_are};
use crate::text::{chars_of, push_all, string_of};
use vstd::prelude::*;

verus! {

// ---------------------------------------------------------------------------
// The object table of a design
// ---------------------------------------------------------------------------

/// The entries a module's ports add to the table: module, port name and
/// width.
pub open spec fn port_entries(module: Seq<char>, ports: Seq<EirPort>) -> Seq<
    (Seq<char>, Seq<char>, BoundModel),
> {
    ports.map_values(|p: EirPort| (module, p.name@, eir_bound_model(p.width)))
}

/// The entries of the ports of each module, in order.
pub open spec fn module_entries(modules: Seq<EirModule>) -> Seq<(Seq<char>, Seq<char>, BoundModel)>
    decreases modules.len(),
{
    if modules.len() == 0 {
        Seq::empty()
    } else {
        module_entries(modules.drop_last()) + port_entries(
            modules.last().name@,
            modules.last().ports@,
        )
    }
}

/// The entries of the declared objects, in order.
pub open spec fn object_entries(objects: Seq<EirObject>) -> Seq<(Seq<char>, Seq<char>, BoundModel)> {
    objects.map_values(|o: EirObject| (o.module@, o.name@, eir_bound_model(o.width)))
}

/// The table after interning the entries in order: a key is added the
/// first time it is met, and the width of the latest entry for it is kept.
pub open spec fn interned(entries: Seq<(Seq<char>, Seq<char>, BoundModel)>) -> TableModel
    decreases entries.len(),
{
    if entries.len() == 0 {
        TableModel { keys: Seq::empty(), widths: Map::empty() }
    } else {
        let t = interned(entries.drop_last());
        let e = entries.last();
        match key_position(t.keys, (e.0, e.1)) {
            Some(i) => TableModel { keys: t.keys, widths: t.widths.insert(i as usize, e.2) },
            None => TableModel {
                keys: t.keys.push((e.0, e.1)),
                widths: t.widths.insert(t.keys.len() as usize, e.2),
            },
        }
    }
}

/// The object table of a design: each module's ports, then each declared
/// object.
pub open spec fn design_table(eir: EirDesign) -> TableModel {
    interned(module_entries(eir.raw.modules@) + object_entries(eir.facts.objects@))
}

/// Every entry's key is in the interned table.
pub proof fn lemma_interned_has(entries: Seq<(Seq<char>, Seq<char>, BoundModel)>, j: int)
    requires
        0 <= j < entries.len(),
    ensures
        key_position(interned(entries).keys, (entries[j].0, entries[j].1)) is Some,
    decreases entries.len(),
{
    let t = interned(entries.drop_last());
    let e = entries.last();
    let k = (entries[j].0, entries[j].1);
    let keys = interned(entries).keys;
    if j == entries.len() - 1 {
        match key_position(t.keys, (e.0, e.1)) {
            Some(i) => {
                let w = choose|w: int| 0 <= w < t.keys.len() && t.keys[w] == k;
                assert(keys[w] == k);
            },
            None => {
                assert(keys[t.keys.len() as int] == k);
            },
        }
    } else {
        lemma_interned_has(entries.drop_last(), j);
        assert(entries.drop_last()[j] == entries[j]);
        let w = choose|w: int| 0 <= w < t.keys.len() && t.keys[w] == k;
        assert(keys[w] == k);
    }
}

/// The kind of fact created for an object.
pub open spec fn create_kind(k: EirObjectKind) -> CreateKind {
    match k {
        EirObjectKind::Signal => CreateKind::Signal,
        EirObjectKind::Storage => CreateKind::Storage,
    }
}

/// `c` is the created fact of object `o`: same module, name, kind,
/// activity and origin, with the identity the table gives the object.
pub open spec fn created_from(table: TableModel, o: EirObject, c: CreateFact) -> bool {
    &&& c.module@ == o.module@
    &&& c.name@ == o.name@
    &&& key_position(table.keys, (o.module@, o.name@)) == Some(c.object_id.0 as int)
    &&& c.kind == create_kind(o.kind)
    &&& c.activity == o.activity
    &&& same_origin(c.origin, o.origin)
}

// ---------------------------------------------------------------------------
// Drives and reads
// ---------------------------------------------------------------------------

/// The diagnostic for a place that does not resolve, if it does not.
pub open spec fn place_error_model(table: TableModel, module: Seq<char>, p: EirPlace, span: Span) -> Option<
    DiagnosticModel,
> {
    match resolve_error(table, module, p) {
        Some(true) => Some(plain_diag(ErrorSpec::UnknownHardwareObject(module, root_name(p)), span)),
        Some(false) => Some(plain_diag(ErrorSpec::UnsupportedHardwareValueExpression, span)),
        None => None,
    }
}

/// The diagnostics of the drives whose target does not resolve, in order.
pub open spec fn drive_place_errors(table: TableModel, drives: Seq<EirDrive>) -> Seq<DiagnosticModel>
    decreases drives.len(),
{
    if drives.len() == 0 {
        Seq::empty()
    } else {
        let rest = drive_place_errors(table, drives.drop_last());
        let d = drives.last();
        match place_error_model(table, d.module@, d.target, d.origin.span) {
            Some(e) => rest.push(e),
            None => rest,
        }
    }
}

/// The diagnostics of the reads whose source does not resolve, in order.
pub open spec fn read_place_errors(table: TableModel, reads: Seq<EirRead>) -> Seq<DiagnosticModel>
    decreases reads.len(),
{
    if reads.len() == 0 {
        Seq::empty()
    } else {
        let rest = read_place_errors(table, reads.drop_last());
        let r = reads.last();
        match place_error_model(table, r.module@, r.source, r.origin.span) {
            Some(e) => rest.push(e),
            None => rest,
        }
    }
}

/// The drives whose target resolves, in order.
pub open spec fn resolved_drives(table: TableModel, drives: Seq<EirDrive>) -> Seq<EirDrive>
    decreases drives.len(),
{
    if drives.len() == 0 {
        Seq::empty()
    } else {
        let rest = resolved_drives(table, drives.drop_last());
        let d = drives.last();
        if resolve_error(table, d.module@, d.target) is None {
            rest.push(d)
        } else {
            rest
        }
    }
}

/// The reads whose source resolves, in order.
pub open spec fn resolved_reads(table: TableModel, reads: Seq<EirRead>) -> Seq<EirRead>
    decreases reads.len(),
{
    if reads.len() == 0 {
        Seq::empty()
    } else {
        let rest = resolved_reads(table, reads.drop_last());
        let r = reads.last();
        if resolve_error(table, r.module@, r.source) is None {
            rest.push(r)
        } else {
            rest
        }
    }
}

/// Two optional values are both absent or the same expression.
pub open spec fn same_value(a: Option<EirExpr>, b: Option<EirExpr>) -> bool {
    match (a, b) {
        (Some(x), Some(y)) => same_expr(x, y),
        (None, None) => true,
        _ => false,
    }
}

/// The place a drive of the next value of `storage` targets: the storage's
/// name followed by `.next`.
pub open spec fn next_place(f: DriverPlace, storage: DriverPlace) -> bool {
    f matches DriverPlace::Expr(DriverExpr::Ident(name)) && name@ == place_text(storage) + ".next"@
}

/// `f` is the drive fact of `d`: same module, value, scopes and origin; a
/// continuous drive targets the resolved place, a next-value drive targets
/// the next value of the resolved storage place.
pub open spec fn drive_collected(table: TableModel, d: EirDrive, f: DriveFact) -> bool {
    &&& f.module@ == d.module@
    &&& same_value(f.value, d.value)
    &&& frames_equal(f.guard.frames@, d.guard.frames@)
    &&& same_origin(f.origin, d.origin)
    &&& match d.kind {
        EirDriveKind::Continuous => f.effect is Continuous && resolves_to(
            table,
            d.module@,
            d.target,
            f.target,
        ),
        EirDriveKind::Next => f.effect matches DriveEffect::Next { storage_target } && resolves_to(
            table,
            d.module@,
            d.target,
            *storage_target,
        ) && next_place(f.target, *storage_target),
    }
}

/// `f` is the read fact of `r`: same module, scopes and origin, with the
/// source resolved.
pub open spec fn read_collected(table: TableModel, r: EirRead, f: ReadFact) -> bool {
    &&& f.module@ == r.module@
    &&& resolves_to(table, r.module@, r.source, f.source)
    &&& frames_equal(f.guard.frames@, r.guard.frames@)
    &&& same_origin(f.origin, r.origin)
}

/// The diagnostics of gathering a design's facts: unresolved drive
/// targets, then unresolved read sources.
pub open spec fn collect_errors(eir: EirDesign) -> Seq<DiagnosticModel> {
    drive_place_errors(design_table(eir), eir.facts.drives@) + read_place_errors(
        design_table(eir),
        eir.facts.reads@,
    )
}

/// `f` holds the facts of the design, every drive and read resolved, with
/// the summaries of the expanded cell instances followed by those of the
/// instances of modules that `om` lists as source cells.
pub open spec fn facts_of(eir: EirDesign, om: Map<Seq<char>, OpaqueModel>, f: DriverFacts) -> bool {
    let table = design_table(eir);
    &&& f.objects.wf()
    &&& f.objects@ == table
    &&& f.creates@.len() == eir.facts.objects@.len()
    &&& forall|i: int|
        0 <= i < f.creates@.len() ==> created_from(table, eir.facts.objects@[i], #[trigger] f.creates@[i])
    &&& f.drives@.len() == eir.facts.drives@.len()
    &&& forall|i: int|
        0 <= i < f.drives@.len() ==> drive_collected(table, eir.facts.drives@[i], #[trigger] f.drives@[i])
    &&& f.reads@.len() == eir.facts.reads@.len()
    &&& forall|i: int|
        0 <= i < f.reads@.len() ==> read_collected(table, eir.facts.reads@[i], #[trigger] f.reads@[i])
    &&& exists|n: int|
        0 <= n <= f.summary_cells@.len() && summaries_are(
            f.summary_cells@.take(n),
            f.drives@,
            f.reads@,
            f.creates@,
        ) && source_summaries_are(
            #[trigger] f.summary_cells@.skip(n),
            om,
            modules_instances(eir.raw.modules@),
            f.drives@,
            f.reads@,
        )
}

proof fn lemma_no_drive_errors(table: TableModel, drives: Seq<EirDrive>)
    requires
        drive_place_errors(table, drives).len() == 0,
    ensures
        resolved_drives(table, drives) == drives,
    decreases drives.len(),
{
    if drives.len() > 0 {
        lemma_errors_grow(table, drives.drop_last(), drives.last());
        assert(drives.drop_last().push(drives.last()) =~= drives);
        lemma_no_drive_errors(table, drives.drop_last());
    }
}

proof fn lemma_errors_grow(table: TableModel, drives: Seq<EirDrive>, d: EirDrive)
    ensures
        drive_place_errors(table, drives).len() <= drive_place_errors(table, drives.push(d)).len(),
        place_error_model(table, d.module@, d.target, d.origin.span) is Some ==> drive_place_errors(
            table,
            drives,
        ).len() < drive_place_errors(table, drives.push(d)).len(),
{
    assert(drives.push(d).drop_last() =~= drives);
}

proof fn lemma_no_read_errors(table: TableModel, reads: Seq<EirRead>)
    requires
        read_place_errors(table, reads).len() == 0,
    ensures
        resolved_reads(table, reads) == reads,
    decreases reads.len(),
{
    if reads.len() > 0 {
        assert(reads.drop_last().push(reads.last()) =~= reads);
        assert(reads.drop_last().push(reads.last()).drop_last() =~= reads.drop_last());
        lemma_no_read_errors(table, reads.drop_last());
    }
}

// ---------------------------------------------------------------------------
// The collector
// ---------------------------------------------------------------------------

/// The text of the next value of a storage place.
pub fn next_name(storage: &DriverPlace) -> (r: String)
    ensures
        r@ == place_text(*storage) + ".next"@,
{
    let mut out = chars_of(storage.display().as_str());
    let suffix = chars_of(".next");
    push_all(&mut out, &suffix);
    string_of(&out)
}

/// A copy of an optional value.
fn copy_value(value: Option<&EirExpr>) -> (r: Option<EirExpr>)
    ensures
        match value {
            Some(v) => r matches Some(c) && same_expr(c, *v),
            None => r is None,
        },
{
    match value {
        Some(v) => Some(v.copy()),
        None => None,
    }
}

/// The object table of a design: every port of every module, then every
/// declared object, each with its width.
pub fn index_design(eir: &EirDesign) -> (r: DriverObjectTable)
    ensures
        r.wf(),
        r@ == design_table(*eir),
{
    let mut table = DriverObjectTable::new();
    let modules = eir.modules();
    let mut m: usize = 0;
    proof {
        assert(modules@.take(0) =~= Seq::<EirModule>::empty());
        assert(table@.keys =~= interned(Seq::empty()).keys);
        assert(table@ == interned(Seq::empty()));
    }
    while m < modules.len()
        invariant
            m <= modules.len(),
            modules@ == eir.raw.modules@,
            table.wf(),
            table@ == interned(module_entries(modules@.take(m as int))),
        decreases modules.len() - m,
    {
        let module = &modules[m];
        let ports = module.ports();
        let ghost before = module_entries(modules@.take(m as int));
        let mut p: usize = 0;
        proof {
            assert(before + port_entries(module.name@, ports@.take(0)) =~= before);
        }
        while p < ports.len()
            invariant
                p <= ports.len(),
                ports@ == module.ports@,
                table.wf(),
                table@ == interned(before + port_entries(module.name@, ports@.take(p as int))),
            decreases ports.len() - p,
        {
            let ghost prev = before + port_entries(module.name@, ports@.take(p as int));
            let ghost e = (module.name@, ports@[p as int].name@, eir_bound_model(ports@[p as int].width));
            table.intern_with_bound(module.name(), ports[p].name(), ports[p].width_bound());
            proof {
                let next = before + port_entries(module.name@, ports@.take(p + 1));
                assert(next =~= prev.push(e));
                assert(next.drop_last() =~= prev);
            }
            p = p + 1;
        }
        proof {
            assert(ports@.take(ports@.len() as int) =~= ports@);
            assert(modules@.take(m + 1).drop_last() =~= modules@.take(m as int));
            assert(modules@.take(m + 1).last() == modules@[m as int]);
        }
        m = m + 1;
    }
    let objects = eir.objects();
    let ghost base = module_entries(modules@);
    proof {
        assert(modules@.take(modules@.len() as int) =~= modules@);
        assert(base + object_entries(objects@.take(0)) =~= base);
    }
    let mut k: usize = 0;
    while k < objects.len()
        invariant
            k <= objects.len(),
            objects@ == eir.facts.objects@,
            base == module_entries(eir.raw.modules@),
            table.wf(),
            table@ == interned(base + object_entries(objects@.take(k as int))),
        decreases objects.len() - k,
    {
        let ghost prev = base + object_entries(objects@.take(k as int));
        let ghost e = (objects@[k as int].module@, objects@[k as int].name@, eir_bound_model(
            objects@[k as int].width,
        ));
        table.intern_with_bound(objects[k].module(), objects[k].name(), objects[k].width_bound());
        proof {
            let next = base + object_entries(objects@.take(k + 1));
            assert(next =~= prev.push(e));
            assert(next.drop_last() =~= prev);
        }
        k = k + 1;
    }
    proof {
        assert(objects@.take(objects@.len() as int) =~= objects@);
    }
    table
}

/// Gathers the facts of a design.
pub struct DriverFactsCollector<'a> {
    pub eir: &'a EirDesign,
    pub opaque_summaries: OpaqueSummaryTable,
    pub objects: DriverObjectTable,
    pub drives: Vec<DriveFact>,
    pub reads: Vec<ReadFact>,
    pub creates: Vec<CreateFact>,
    pub errors: Vec<DriverDiagnostic>,
}

impl<'a> DriverFactsCollector<'a> {
    /// A collector for the design that knows of no opaque module, with
    /// nothing gathered yet.
    pub fn new(eir: &'a EirDesign) -> (r: Self)
        ensures
            r.eir == eir,
            r.opaque_summaries.view_map() == Map::<Seq<char>, OpaqueModel>::empty(),
            r.objects.wf(),
            r.drives@.len() == 0,
            r.reads@.len() == 0,
            r.creates@.len() == 0,
            r.errors@.len() == 0,
    {
        Self::with_opaque_summaries(eir, &OpaqueSummaryTable::new())
    }

    /// A collector for the design that knows the given opaque modules, with
    /// nothing gathered yet.
    pub fn with_opaque_summaries(eir: &'a EirDesign, opaque_summaries: &OpaqueSummaryTable) -> (r: Self)
        ensures
            r.eir == eir,
            r.opaque_summaries.view_map() == opaque_summaries.view_map(),
            r.objects.wf(),
            r.drives@.len() == 0,
            r.reads@.len() == 0,
            r.creates@.len() == 0,
            r.errors@.len() == 0,
    {
        DriverFactsCollector {
            eir,
            opaque_summaries: opaque_summaries.copy(),
            objects: DriverObjectTable::new(),
            drives: Vec::new(),
            reads: Vec::new(),
            creates: Vec::new(),
            errors: Vec::new(),
        }
    }

    /// The facts of the design, or the diagnostics of the drives and reads
    /// whose places do not resolve.
    pub fn collect(self) -> (r: Result<DriverFacts, Vec<DriverDiagnostic>>)
        requires
            self.drives@.len() == 0,
            self.reads@.len() == 0,
            self.creates@.len() == 0,
            self.errors@.len() == 0,
        ensures
            match r {
                Ok(f) => collect_errors(*self.eir).len() == 0 && facts_of(
                    *self.eir,
                    self.opaque_summaries.view_map(),
                    f,
                ),
                Err(e) => collect_errors(*self.eir).len() > 0 && diag_models(e@) == collect_errors(
                    *self.eir,
                ),
            },
    {
        let mut this = self;
        let ghost eir = *this.eir;
        this.index_objects();
        this.collect_creates();
        this.collect_drive_facts();
        this.collect_read_facts();
        let ghost table = design_table(eir);
        if this.errors.len() > 0 {
            return Err(this.errors);
        }
        proof {
            assert(diag_models(this.errors@).len() == 0);
            lemma_no_drive_errors(table, eir.facts.drives@);
            lemma_no_read_errors(table, eir.facts.reads@);
            assert forall|i: int| 0 <= i < this.drives@.len() implies drive_collected(
                table,
                eir.facts.drives@[i],
                #[trigger] this.drives@[i],
            ) by {
                assert(this.drives@[0 + i] == this.drives@[i]);
            }
            assert forall|i: int| 0 <= i < this.reads@.len() implies read_collected(
                table,
                eir.facts.reads@[i],
                #[trigger] this.reads@[i],
            ) by {
                assert(this.reads@[0 + i] == this.reads@[i]);
            }
        }
        let collector = CellSummaryCollector::new(
            this.drives.as_slice(),
            this.reads.as_slice(),
            this.creates.as_slice(),
        ).collect();
        let ghost table = collector.summaries@;
        let mut cell_summaries = collector.finish();
        proof {
            lemma_table_summaries(table, this.drives@, this.reads@, this.creates@);
        }
        let ghost cells = cell_summaries@;
        let mut source_summaries = this.collect_source_instance_summaries();
        let ghost sources = source_summaries@;
        cell_summaries.append(&mut source_summaries);
        proof {
            let all = cell_summaries@;
            let n = cells.len() as int;
            assert(all.take(n) =~= cells);
            assert(all.skip(n) =~= sources);
            assert(summaries_are(all.take(n), this.drives@, this.reads@, this.creates@));
            assert(source_summaries_are(
                all.skip(n),
                this.opaque_summaries.view_map(),
                modules_instances(eir.raw.modules@),
                this.drives@,
                this.reads@,
            ));
        }
        Ok(DriverFacts::new(this.objects, this.drives, this.reads, this.creates, cell_summaries))
    }

    /// Records every port of every module, then every declared object, with
    /// its width.
    pub fn index_objects(&mut self)
        ensures
            final(self).eir == old(self).eir,
            final(self).opaque_summaries == old(self).opaque_summaries,
            final(self).objects.wf(),
            final(self).objects@ == design_table(*old(self).eir),
            final(self).drives == old(self).drives,
            final(self).reads == old(self).reads,
            final(self).creates == old(self).creates,
            final(self).errors == old(self).errors,
    {
        self.objects = index_design(self.eir);
    }

    /// Records a created fact for each declared object, with the identity
    /// the table gives it.
    pub fn collect_creates(&mut self)
        requires
            old(self).objects.wf(),
            old(self).objects@ == design_table(*old(self).eir),
            old(self).creates@.len() == 0,
        ensures
            final(self).eir == old(self).eir,
            final(self).opaque_summaries == old(self).opaque_summaries,
            final(self).objects.wf(),
            final(self).objects@ == old(self).objects@,
            final(self).drives == old(self).drives,
            final(self).reads == old(self).reads,
            final(self).errors == old(self).errors,
            final(self).creates@.len() == old(self).eir.facts.objects@.len(),
            forall|i: int|
                0 <= i < final(self).creates@.len() ==> created_from(
                    final(self).objects@,
                    old(self).eir.facts.objects@[i],
                    #[trigger] final(self).creates@[i],
                ),
    {
        let eir = self.eir;
        let objects = eir.objects();
        let ghost table = self.objects@;
        let ghost entries = module_entries(eir.raw.modules@) + object_entries(eir.facts.objects@);
        let mut k: usize = 0;
        while k < objects.len()
            invariant
                k <= objects.len(),
                objects@ == eir.facts.objects@,
                self.eir == eir,
                self.opaque_summaries == old(self).opaque_summaries,
                self.drives == old(self).drives,
                self.reads == old(self).reads,
                self.errors == old(self).errors,
                self.objects.wf(),
                self.objects@ == table,
                table == interned(entries),
                entries == module_entries(eir.raw.modules@) + object_entries(eir.facts.objects@),
                self.creates@.len() == k,
                forall|i: int|
                    0 <= i < k ==> created_from(table, objects@[i], #[trigger] self.creates@[i]),
            decreases objects.len() - k,
        {
            let object = &objects[k];
            let kind = match object.kind() {
                EirObjectKind::Signal => CreateKind::Signal,
                EirObjectKind::Storage => CreateKind::Storage,
            };
            proof {
                let j = module_entries(eir.raw.modules@).len() + k;
                assert(entries[j] == (object.module@, object.name@, eir_bound_model(object.width)));
                lemma_interned_has(entries, j);
            }
            let object_id = self.objects.intern(object.module(), object.name());
            self.creates.push(
                CreateFact::new(
                    object.module(),
                    object.name(),
                    object_id,
                    kind,
                    object.activity(),
                    object.origin().copy(),
                ),
            );
            k = k + 1;
        }
    }

    /// Records the fact of each drive whose target resolves, and a
    /// diagnostic for each that does not.
    pub fn collect_drive_facts(&mut self)
        requires
            old(self).objects.wf(),
        ensures
            final(self).eir == old(self).eir,
            final(self).opaque_summaries == old(self).opaque_summaries,
            final(self).objects == old(self).objects,
            final(self).reads == old(self).reads,
            final(self).creates == old(self).creates,
            diag_models(final(self).errors@) == diag_models(old(self).errors@) + drive_place_errors(
                old(self).objects@,
                old(self).eir.facts.drives@,
            ),
            final(self).drives@.len() == old(self).drives@.len() + resolved_drives(
                old(self).objects@,
                old(self).eir.facts.drives@,
            ).len(),
            forall|i: int|
                0 <= i < old(self).drives@.len() ==> #[trigger] final(self).drives@[i] == old(
                    self,
                ).drives@[i],
            forall|i: int|
                0 <= i < resolved_drives(old(self).objects@, old(self).eir.facts.drives@).len()
                    ==> drive_collected(
                    old(self).objects@,
                    resolved_drives(old(self).objects@, old(self).eir.facts.drives@)[i],
                    #[trigger] final(self).drives@[old(self).drives@.len() + i],
                ),
    {
        let eir = self.eir;
        let drives = eir.drives();
        let ghost table = self.objects@;
        let ghost errors0 = diag_models(self.errors@);
        let ghost drives0 = self.drives@;
        let mut k: usize = 0;
        proof {
            assert(drives@.take(0) =~= Seq::<EirDrive>::empty());
            assert(diag_models(self.errors@) =~= errors0 + drive_place_errors(table, Seq::empty()));
        }
        while k < drives.len()
            invariant
                k <= drives.len(),
                drives@ == eir.facts.drives@,
                self.eir == eir,
                self.opaque_summaries == old(self).opaque_summaries,
                self.objects.wf(),
                self.objects@ == table,
                self.reads == old(self).reads,
                self.creates == old(self).creates,
                self.objects == old(self).objects,
                diag_models(self.errors@) == errors0 + drive_place_errors(table, drives@.take(k as int)),
                self.drives@.len() == drives0.len() + resolved_drives(table, drives@.take(k as int)).len(),
                forall|i: int| 0 <= i < drives0.len() ==> #[trigger] self.drives@[i] == drives0[i],
                forall|i: int|
                    0 <= i < resolved_drives(table, drives@.take(k as int)).len() ==> drive_collected(
                        table,
                        resolved_drives(table, drives@.take(k as int))[i],
                        #[trigger] self.drives@[drives0.len() + i],
                    ),
            decreases drives.len() - k,
        {
            let drive = &drives[k];
            let ghost prefix = drives@.take(k as int);
            proof {
                assert(drives@.take(k + 1).drop_last() =~= prefix);
                assert(drives@.take(k + 1).last() == drives@[k as int]);
            }
            let resolver = DriverPlaceResolver::new(drive.module(), &self.objects);
            match resolver.resolve_place(drive.target_place()) {
                Err(error) => {
                    let ghost before = self.errors@;
                    let diagnostic = Self::place_error(error, drive.origin().span());
                    self.errors.push(diagnostic);
                    proof {
                        assert(diag_models(self.errors@) =~= diag_models(before).push(diag_model(diagnostic)));
                    }
                },
                Ok(target) => {
                    let ghost before = self.drives@;
                    let (place, effect) = match drive.kind() {
                        EirDriveKind::Continuous => (target, DriveEffect::Continuous),
                        EirDriveKind::Next => {
                            let name = next_name(&target);
                            (
                                DriverPlace::Expr(DriverExpr::Ident(name)),
                                DriveEffect::Next { storage_target: Box::new(target) },
                            )
                        },
                    };
                    let fact = DriveFact::new(
                        drive.module(),
                        place,
                        effect,
                        copy_value(drive.value()),
                        EirGuard::from_frames(drive.guard().frames()),
                        drive.origin().copy(),
                    );
                    self.drives.push(fact);
                    proof {
                        let rd = resolved_drives(table, drives@.take(k + 1));
                        assert(rd == resolved_drives(table, prefix).push(drives@[k as int]));
                        assert forall|i: int| 0 <= i < rd.len() implies drive_collected(
                            table,
                            rd[i],
                            #[trigger] self.drives@[drives0.len() + i],
                        ) by {
                            if i < rd.len() - 1 {
                                assert(self.drives@[drives0.len() + i] == before[drives0.len() + i]);
                            }
                        }
                    }
                },
            }
            k = k + 1;
        }
        proof {
            assert(drives@.take(drives@.len() as int) =~= drives@);
        }
    }

    /// Records the fact of each read whose source resolves, and a diagnostic
    /// for each that does not.
    pub fn collect_read_facts(&mut self)
        requires
            old(self).objects.wf(),
        ensures
            final(self).eir == old(self).eir,
            final(self).opaque_summaries == old(self).opaque_summaries,
            final(self).objects == old(self).objects,
            final(self).drives == old(self).drives,
            final(self).creates == old(self).creates,
            diag_models(final(self).errors@) == diag_models(old(self).errors@) + read_place_errors(
                old(self).objects@,
                old(self).eir.facts.reads@,
            ),
            final(self).reads@.len() == old(self).reads@.len() + resolved_reads(
                old(self).objects@,
                old(self).eir.facts.reads@,
            ).len(),
            forall|i: int|
                0 <= i < old(self).reads@.len() ==> #[trigger] final(self).reads@[i] == old(
                    self,
                ).reads@[i],
            forall|i: int|
                0 <= i < resolved_reads(old(self).objects@, old(self).eir.facts.reads@).len()
                    ==> read_collected(
                    old(self).objects@,
                    resolved_reads(old(self).objects@, old(self).eir.facts.reads@)[i],
                    #[trigger] final(self).reads@[old(self).reads@.len() + i],
                ),
    {
        let eir = self.eir;
        let reads = eir.reads();
        let ghost table = self.objects@;
        let ghost errors0 = diag_models(self.errors@);
        let ghost reads0 = self.reads@;
        let mut k: usize = 0;
        proof {
            assert(reads@.take(0) =~= Seq::<EirRead>::empty());
            assert(diag_models(self.errors@) =~= errors0 + read_place_errors(table, Seq::empty()));
        }
        while k < reads.len()
            invariant
                k <= reads.len(),
                reads@ == eir.facts.reads@,
                self.eir == eir,
                self.opaque_summaries == old(self).opaque_summaries,
                self.objects.wf(),
                self.objects@ == table,
                self.drives == old(self).drives,
                self.creates == old(self).creates,
                self.objects == old(self).objects,
                diag_models(self.errors@) == errors0 + read_place_errors(table, reads@.take(k as int)),
                self.reads@.len() == reads0.len() + resolved_reads(table, reads@.take(k as int)).len(),
                forall|i: int| 0 <= i < reads0.len() ==> #[trigger] self.reads@[i] == reads0[i],
                forall|i: int|
                    0 <= i < resolved_reads(table, reads@.take(k as int)).len() ==> read_collected(
                        table,
                        resolved_reads(table, reads@.take(k as int))[i],
                        #[trigger] self.reads@[reads0.len() + i],
                    ),
            decreases reads.len() - k,
        {
            let read = &reads[k];
            let ghost prefix = reads@.take(k as int);
            proof {
                assert(reads@.take(k + 1).drop_last() =~= prefix);
                assert(reads@.take(k + 1).last() == reads@[k as int]);
            }
            let resolver = DriverPlaceResolver::new(read.module(), &self.objects);
            match resolver.resolve_place(read.source_place()) {
                Err(error) => {
                    let ghost before = self.errors@;
                    let diagnostic = Self::place_error(error, read.origin().span());
                    self.errors.push(diagnostic);
                    proof {
                        assert(diag_models(self.errors@) =~= diag_models(before).push(diag_model(diagnostic)));
                    }
                },
                Ok(source) => {
                    let ghost before = self.reads@;
                    let fact = ReadFact::new(
                        read.module(),
                        source,
                        EirGuard::from_frames(read.guard().frames()),
                        read.origin().copy(),
                    );
                    self.reads.push(fact);
                    proof {
                        let rr = resolved_reads(table, reads@.take(k + 1));
                        assert(rr == resolved_reads(table, prefix).push(reads@[k as int]));
                        assert forall|i: int| 0 <= i < rr.len() implies read_collected(
                            table,
                            rr[i],
                            #[trigger] self.reads@[reads0.len() + i],
                        ) by {
                            if i < rr.len() - 1 {
                                assert(self.reads@[reads0.len() + i] == before[reads0.len() + i]);
                            }
                        }
                    }
                },
            }
            k = k + 1;
        }
        proof {
            assert(reads@.take(reads@.len() as int) =~= reads@);
        }
    }

    /// The diagnostic for a place that does not resolve.
    pub fn place_error(error: DriverPlaceError, span: Span) -> (r: DriverDiagnostic)
        ensures
            diag_model(r) == match error {
                DriverPlaceError::UnsupportedExpr => plain_diag(
                    ErrorSpec::UnsupportedHardwareValueExpression,
                    span,
                ),
                DriverPlaceError::UnknownObject { module, name } => plain_diag(
                    ErrorSpec::UnknownHardwareObject(module@, name@),
                    span,
                ),
            },
    {
        let kind = match error {
            DriverPlaceError::UnsupportedExpr => DriverError::UnsupportedHardwareValueExpression,
            DriverPlaceError::UnknownObject { module, name } => DriverError::UnknownHardwareObject {
                module,
                name,
            },
        };
        let r = DriverDiagnostic::driver_error(kind, span);
        proof {
            assert(diag_model(r).related =~= Seq::<(Span, Seq<char>)>::empty());
        }
        r
    }
}

} // verus!
