//! Gathers the facts of an elaborated design from its items: the declared
//! objects, every drive and every read, each with the scopes it sits in.
//! Instances contribute through the directions of their module's ports, or
//! through what the opaque table says of their module.
use crate::drc::{DiagnosticModel, DriverDiagnostic, DriverError, ErrorSpec, diag_model, plain_diag};
use crate::eir::{
    EirDesignFacts, EirDirection, EirDrive, EirDriveInput, EirDriveKind, EirInstance, EirItem,
    EirModule, EirObject, EirObjectInput, EirObjectKind, EirPort, EirRead,
};
use crate::design::EirConnection;
use crate::expr::{
    EirBound, EirExpr, EirPlace, denotes_place, expr_is_place, fact_key, lemma_same_expr_fact_key,
    lemma_same_expr_transitive, place_same, same_bound, same_expr,
};
use crate::facts::{EirOrigin, EirSignalActivity, same_origin};
use crate::guard::{EirGuard, EirGuardFrame, Span, frame_equal, frames_equal};
use crate::read_places::{EirReadPlaceCollector, name_views, read_place_exprs};
use crate::source_cells::{OpaqueItemSummary, OpaqueModel, OpaqueSummaryTable, field_views, summary_model};
use crate::text::str_eq;
use vstd::prelude::*;

verus! {

// ---------------------------------------------------------------------------
// Models
// ---------------------------------------------------------------------------

/// A scope a fact sits in: a branch of a static if, or the body of a static
/// loop with its index and bounds.
pub enum ScopeModel {
    IfThen(Seq<char>, Span),
    IfElse(Seq<char>, Span),
    Loop(Seq<char>, Seq<char>, EirExpr, EirExpr, Span),
}

/// The frame is the scope.
pub open spec fn frame_is(f: EirGuardFrame, m: ScopeModel) -> bool {
    match m {
        ScopeModel::IfThen(l, sp) => f matches EirGuardFrame::IfThen { label } && label.display@ == l
            && label.span == sp,
        ScopeModel::IfElse(l, sp) => f matches EirGuardFrame::IfElse { label } && label.display@ == l
            && label.span == sp,
        ScopeModel::Loop(l, i, s, e, sp) => f matches EirGuardFrame::Loop { label, index, start, end }
            && label.display@ == l && label.span == sp && index@ == i && start.source@ == fact_key(s)
            && same_expr(*start.expr, s) && end.source@ == fact_key(e) && same_expr(*end.expr, e),
    }
}

/// The frames are the scopes, outermost first.
pub open spec fn frames_are(fs: Seq<EirGuardFrame>, ms: Seq<ScopeModel>) -> bool {
    fs.len() == ms.len() && forall|i: int| 0 <= i < fs.len() ==> frame_is(#[trigger] fs[i], ms[i])
}

/// Where a fact's place comes from: a place written in an item, or an
/// expression that denotes it.
pub enum PlaceModel {
    Place(EirPlace),
    Expr(EirExpr),
}

/// The place is the one the model gives.
pub open spec fn place_is(p: EirPlace, m: PlaceModel) -> bool {
    match m {
        PlaceModel::Place(q) => place_same(p, q),
        PlaceModel::Expr(e) => expr_is_place(e, p),
    }
}

/// The value a drive gives.
pub enum ValueModel {
    /// No value: the place is set elsewhere.
    Absent,
    /// The written expression.
    Copy(EirExpr),
    /// The unknown enable of an inout port.
    UnknownEnable,
}

/// The value is the one the model gives.
pub open spec fn value_is(v: Option<EirExpr>, m: ValueModel) -> bool {
    match m {
        ValueModel::Absent => v is None,
        ValueModel::Copy(e) => v matches Some(x) && same_expr(x, e),
        ValueModel::UnknownEnable => v matches Some(x) && x matches EirExpr::Unsupported { message }
            && message@ == "instance inout enable is unknown"@,
    }
}

/// A declared object.
pub struct ObjectModel {
    pub module: Seq<char>,
    pub name: Seq<char>,
    pub width: EirBound,
    pub kind: EirObjectKind,
    pub activity: EirSignalActivity,
    pub origin: EirOrigin,
}

/// A drive.
pub struct DriveModel {
    pub module: Seq<char>,
    pub target: PlaceModel,
    pub kind: EirDriveKind,
    pub value: ValueModel,
    pub scopes: Seq<ScopeModel>,
    pub origin: EirOrigin,
}

/// A read.
pub struct ReadModel {
    pub module: Seq<char>,
    pub source: PlaceModel,
    pub scopes: Seq<ScopeModel>,
    pub origin: EirOrigin,
}

/// The facts gathered so far.
pub struct FactsModel {
    pub objects: Seq<ObjectModel>,
    pub drives: Seq<DriveModel>,
    pub reads: Seq<ReadModel>,
}

/// The object is the one the model gives.
pub open spec fn object_is(o: EirObject, m: ObjectModel) -> bool {
    &&& o.module@ == m.module
    &&& o.name@ == m.name
    &&& same_bound(o.width, m.width)
    &&& o.kind == m.kind
    &&& o.activity == m.activity
    &&& same_origin(o.origin, m.origin)
}

/// The drive is the one the model gives.
pub open spec fn drive_is(d: EirDrive, m: DriveModel) -> bool {
    &&& d.module@ == m.module
    &&& place_is(d.target, m.target)
    &&& d.kind == m.kind
    &&& value_is(d.value, m.value)
    &&& frames_are(d.guard.frames@, m.scopes)
    &&& same_origin(d.origin, m.origin)
}

/// The read is the one the model gives.
pub open spec fn read_is(r: EirRead, m: ReadModel) -> bool {
    &&& r.module@ == m.module
    &&& place_is(r.source, m.source)
    &&& frames_are(r.guard.frames@, m.scopes)
    &&& same_origin(r.origin, m.origin)
}

/// The gathered objects, drives and reads are the ones the model gives, in
/// order.
pub open spec fn facts_are(
    objects: Seq<EirObject>,
    drives: Seq<EirDrive>,
    reads: Seq<EirRead>,
    m: FactsModel,
) -> bool {
    &&& objects.len() == m.objects.len()
    &&& forall|i: int| 0 <= i < objects.len() ==> object_is(#[trigger] objects[i], m.objects[i])
    &&& drives.len() == m.drives.len()
    &&& forall|i: int| 0 <= i < drives.len() ==> drive_is(#[trigger] drives[i], m.drives[i])
    &&& reads.len() == m.reads.len()
    &&& forall|i: int| 0 <= i < reads.len() ==> read_is(#[trigger] reads[i], m.reads[i])
}

/// No facts.
pub open spec fn no_facts() -> FactsModel {
    FactsModel { objects: Seq::empty(), drives: Seq::empty(), reads: Seq::empty() }
}

/// The facts with an object added.
pub open spec fn with_object(st: FactsModel, o: ObjectModel) -> FactsModel {
    FactsModel { objects: st.objects.push(o), ..st }
}

/// The facts with a drive added.
pub open spec fn with_drive(st: FactsModel, d: DriveModel) -> FactsModel {
    FactsModel { drives: st.drives.push(d), ..st }
}

/// The facts with a read added.
pub open spec fn with_read(st: FactsModel, r: ReadModel) -> FactsModel {
    FactsModel { reads: st.reads.push(r), ..st }
}

// ---------------------------------------------------------------------------
// What the facts of a design are
// ---------------------------------------------------------------------------

/// What the gathering knows while it walks one module: the module, all
/// modules of the design and what the opaque table says.
pub struct FactsContext {
    pub module: Seq<char>,
    pub modules: Seq<EirModule>,
    pub om: Map<Seq<char>, OpaqueModel>,
}

/// The ports of the last module with the given name.
pub open spec fn ports_of(ms: Seq<EirModule>, name: Seq<char>) -> Option<Seq<EirPort>>
    decreases ms.len(),
{
    if ms.len() == 0 {
        None
    } else if ms.last().name@ == name {
        Some(ms.last().ports@)
    } else {
        ports_of(ms.drop_last(), name)
    }
}

/// The direction of the first port with the given name.
pub open spec fn port_direction(ports: Seq<EirPort>, name: Seq<char>) -> Option<EirDirection>
    decreases ports.len(),
{
    if ports.len() == 0 {
        None
    } else if ports[0].name@ == name {
        Some(ports[0].direction)
    } else {
        port_direction(ports.drop_first(), name)
    }
}

/// The expression connected to the first connection with the given name.
pub open spec fn connection_for(cs: Seq<EirConnection>, name: Seq<char>) -> Option<EirExpr>
    decreases cs.len(),
{
    if cs.len() == 0 {
        None
    } else if cs[0].formal@ == name {
        Some(cs[0].actual)
    } else {
        connection_for(cs.drop_first(), name)
    }
}

/// The names of the objects of the module, in order.
pub open spec fn module_object_names(objects: Seq<ObjectModel>, module: Seq<char>) -> Seq<Seq<char>>
    decreases objects.len(),
{
    if objects.len() == 0 {
        Seq::empty()
    } else {
        let rest = module_object_names(objects.drop_last(), module);
        if objects.last().module == module {
            rest.push(objects.last().name)
        } else {
            rest
        }
    }
}

/// The names a read of an instance connection may start from: the ports of
/// the current module, then the objects declared in it so far.
pub open spec fn hardware_roots(cx: FactsContext, st: FactsModel) -> Seq<Seq<char>> {
    let ports = match ports_of(cx.modules, cx.module) {
        Some(ps) => ps.map_values(|p: EirPort| p.name@),
        None => Seq::empty(),
    };
    ports + module_object_names(st.objects, cx.module)
}

/// The reads of the places the expression reads.
pub open spec fn instance_reads(
    cx: FactsContext,
    scopes: Seq<ScopeModel>,
    origin: EirOrigin,
    actual: EirExpr,
    roots: Seq<Seq<char>>,
    st: FactsModel,
) -> FactsModel {
    FactsModel {
        reads: st.reads + read_models(cx.module, scopes, origin, read_place_exprs(actual, roots)),
        ..st
    }
}

/// The reads of the places the expressions denote.
pub open spec fn read_models(
    module: Seq<char>,
    scopes: Seq<ScopeModel>,
    origin: EirOrigin,
    es: Seq<EirExpr>,
) -> Seq<ReadModel> {
    es.map_values(|e: EirExpr| ReadModel { module, source: PlaceModel::Expr(e), scopes, origin })
}

/// An unsupported hardware value at the span.
pub open spec fn unsupported_at(span: Span) -> DiagnosticModel {
    plain_diag(ErrorSpec::UnsupportedHardwareValueExpression, span)
}

/// The facts of the reads an item lists: each read must denote a place.
pub open spec fn reads_facts(
    cx: FactsContext,
    scopes: Seq<ScopeModel>,
    reads: Seq<EirExpr>,
    origin: EirOrigin,
    st: FactsModel,
) -> Result<FactsModel, DiagnosticModel>
    decreases reads.len(),
{
    if reads.len() == 0 {
        Ok(st)
    } else {
        match reads_facts(cx, scopes, reads.drop_last(), origin, st) {
            Err(e) => Err(e),
            Ok(mid) => if denotes_place(reads.last()) {
                Ok(
                    with_read(
                        mid,
                        ReadModel {
                            module: cx.module,
                            source: PlaceModel::Expr(reads.last()),
                            scopes,
                            origin,
                        },
                    ),
                )
            } else {
                Err(unsupported_at(origin.span))
            },
        }
    }
}

/// The facts of one connection of an instance whose module has the given
/// ports: inputs are read, outputs driven, inouts both.
pub open spec fn connection_facts(
    cx: FactsContext,
    scopes: Seq<ScopeModel>,
    inst: EirInstance,
    ports: Seq<EirPort>,
    roots: Seq<Seq<char>>,
    c: EirConnection,
    st: FactsModel,
) -> Result<FactsModel, DiagnosticModel> {
    let drive = |value: ValueModel|
        DriveModel {
            module: cx.module,
            target: PlaceModel::Expr(c.actual),
            kind: EirDriveKind::Continuous,
            value,
            scopes,
            origin: inst.origin,
        };
    match port_direction(ports, c.formal@) {
        None => Err(plain_diag(ErrorSpec::UnknownParameter(c.formal@, inst.module@), inst.origin.span)),
        Some(EirDirection::In) => Ok(instance_reads(cx, scopes, inst.origin, c.actual, roots, st)),
        Some(EirDirection::InOut) => if denotes_place(c.actual) {
            Ok(
                with_drive(
                    instance_reads(cx, scopes, inst.origin, c.actual, roots, st),
                    drive(ValueModel::UnknownEnable),
                ),
            )
        } else {
            Err(unsupported_at(inst.origin.span))
        },
        Some(EirDirection::Out) => if denotes_place(c.actual) {
            Ok(with_drive(st, drive(ValueModel::Absent)))
        } else {
            Err(unsupported_at(inst.origin.span))
        },
    }
}

/// The facts of the connections of an instance, in order.
pub open spec fn connections_facts(
    cx: FactsContext,
    scopes: Seq<ScopeModel>,
    inst: EirInstance,
    ports: Seq<EirPort>,
    roots: Seq<Seq<char>>,
    cs: Seq<EirConnection>,
    st: FactsModel,
) -> Result<FactsModel, DiagnosticModel>
    decreases cs.len(),
{
    if cs.len() == 0 {
        Ok(st)
    } else {
        match connections_facts(cx, scopes, inst, ports, roots, cs.drop_last(), st) {
            Err(e) => Err(e),
            Ok(mid) => connection_facts(cx, scopes, inst, ports, roots, cs.last(), mid),
        }
    }
}

/// The drives of the fields an opaque module drives, each through the
/// connection of that name, which must denote a place.
pub open spec fn driven_facts(
    cx: FactsContext,
    scopes: Seq<ScopeModel>,
    inst: EirInstance,
    fields: Seq<Seq<char>>,
    st: FactsModel,
) -> Result<FactsModel, DiagnosticModel>
    decreases fields.len(),
{
    if fields.len() == 0 {
        Ok(st)
    } else {
        match driven_facts(cx, scopes, inst, fields.drop_last(), st) {
            Err(e) => Err(e),
            Ok(mid) => match connection_for(inst.connections@, fields.last()) {
                None => Err(
                    plain_diag(ErrorSpec::UnknownParameter(fields.last(), inst.module@), inst.origin.span),
                ),
                Some(actual) => if denotes_place(actual) {
                    Ok(
                        with_drive(
                            mid,
                            DriveModel {
                                module: cx.module,
                                target: PlaceModel::Expr(actual),
                                kind: EirDriveKind::Continuous,
                                value: ValueModel::Absent,
                                scopes,
                                origin: inst.origin,
                            },
                        ),
                    )
                } else {
                    Err(unsupported_at(inst.origin.span))
                },
            },
        }
    }
}

/// The reads of the fields an opaque module reads, each through the
/// connection of that name.
pub open spec fn consumed_facts(
    cx: FactsContext,
    scopes: Seq<ScopeModel>,
    inst: EirInstance,
    roots: Seq<Seq<char>>,
    fields: Seq<Seq<char>>,
    st: FactsModel,
) -> Result<FactsModel, DiagnosticModel>
    decreases fields.len(),
{
    if fields.len() == 0 {
        Ok(st)
    } else {
        match consumed_facts(cx, scopes, inst, roots, fields.drop_last(), st) {
            Err(e) => Err(e),
            Ok(mid) => match connection_for(inst.connections@, fields.last()) {
                None => Err(
                    plain_diag(ErrorSpec::UnknownParameter(fields.last(), inst.module@), inst.origin.span),
                ),
                Some(actual) => Ok(instance_reads(cx, scopes, inst.origin, actual, roots, mid)),
            },
        }
    }
}

/// The facts of an instance of a module the opaque table summarises: a
/// drive for each field it drives, then the reads of each field it reads.
pub open spec fn summary_facts(
    cx: FactsContext,
    scopes: Seq<ScopeModel>,
    inst: EirInstance,
    s: OpaqueModel,
    st: FactsModel,
) -> Result<FactsModel, DiagnosticModel> {
    let roots = hardware_roots(cx, st);
    match driven_facts(cx, scopes, inst, s.driven, st) {
        Err(e) => Err(e),
        Ok(mid) => consumed_facts(cx, scopes, inst, roots, s.consumed, mid),
    }
}

/// The facts of an instance through the ports of its module, which must be
/// a module of the design.
pub open spec fn signature_facts(
    cx: FactsContext,
    scopes: Seq<ScopeModel>,
    inst: EirInstance,
    st: FactsModel,
) -> Result<FactsModel, DiagnosticModel> {
    match ports_of(cx.modules, inst.module@) {
        None => Err(
            plain_diag(ErrorSpec::UnknownHardwareObject(cx.module, inst.module@), inst.origin.span),
        ),
        Some(ports) => connections_facts(
            cx,
            scopes,
            inst,
            ports,
            hardware_roots(cx, st),
            inst.connections@,
            st,
        ),
    }
}

/// The facts of an instance: through what the opaque table says of its
/// module where it says anything, else through its module's ports.
pub open spec fn instance_facts(
    cx: FactsContext,
    scopes: Seq<ScopeModel>,
    inst: EirInstance,
    st: FactsModel,
) -> Result<FactsModel, DiagnosticModel> {
    if cx.om.contains_key(inst.module@) {
        summary_facts(cx, scopes, inst, cx.om[inst.module@], st)
    } else {
        signature_facts(cx, scopes, inst, st)
    }
}

/// The facts of the items, in order, nested ones included: each static if
/// adds a then scope and an else scope, each static loop its body scope.
pub open spec fn items_facts(
    cx: FactsContext,
    scopes: Seq<ScopeModel>,
    items: Seq<EirItem>,
    st: FactsModel,
) -> Result<FactsModel, DiagnosticModel>
    decreases items,
{
    if items.len() == 0 {
        Ok(st)
    } else {
        let last = items[items.len() - 1];
        match items_facts(cx, scopes, items.subrange(0, items.len() - 1), st) {
            Err(e) => Err(e),
            Ok(mid) => match last {
                EirItem::Signal { width, name, activity, origin } => Ok(
                    with_object(
                        mid,
                        ObjectModel {
                            module: cx.module,
                            name: name@,
                            width,
                            kind: EirObjectKind::Signal,
                            activity,
                            origin,
                        },
                    ),
                ),
                EirItem::Storage { width, name, origin } => Ok(
                    with_object(
                        mid,
                        ObjectModel {
                            module: cx.module,
                            name: name@,
                            width,
                            kind: EirObjectKind::Storage,
                            activity: EirSignalActivity::Required,
                            origin,
                        },
                    ),
                ),
                EirItem::Drive { lhs, rhs, reads, origin } => reads_facts(
                    cx,
                    scopes,
                    reads@,
                    origin,
                    with_drive(
                        mid,
                        DriveModel {
                            module: cx.module,
                            target: PlaceModel::Place(lhs),
                            kind: EirDriveKind::Continuous,
                            value: ValueModel::Copy(rhs),
                            scopes,
                            origin,
                        },
                    ),
                ),
                EirItem::ClockedStorage { target, reads, origin, .. } => reads_facts(
                    cx,
                    scopes,
                    reads@,
                    origin,
                    with_drive(
                        mid,
                        DriveModel {
                            module: cx.module,
                            target: PlaceModel::Place(target),
                            kind: EirDriveKind::Next,
                            value: ValueModel::Absent,
                            scopes,
                            origin,
                        },
                    ),
                ),
                EirItem::CellExpansion(e) => items_facts(cx, scopes, e.items@, mid),
                EirItem::Instance(inst) => instance_facts(cx, scopes, inst, mid),
                EirItem::SymbolicStaticIf { label, then_items, else_items, origin, .. } => match items_facts(
                    cx,
                    scopes.push(ScopeModel::IfThen(label@, origin.span)),
                    then_items@,
                    mid,
                ) {
                    Err(e) => Err(e),
                    Ok(m2) => items_facts(
                        cx,
                        scopes.push(ScopeModel::IfElse(label@, origin.span)),
                        else_items@,
                        m2,
                    ),
                },
                EirItem::SymbolicStaticFor { index, start, end, label, items: body, origin } => items_facts(
                    cx,
                    scopes.push(ScopeModel::Loop(label@, index@, start, end, origin.span)),
                    body@,
                    mid,
                ),
                _ => Ok(mid),
            },
        }
    }
}

/// The facts of the modules, module by module, each walked from no scope.
pub open spec fn modules_facts(
    all: Seq<EirModule>,
    om: Map<Seq<char>, OpaqueModel>,
    ms: Seq<EirModule>,
    st: FactsModel,
) -> Result<FactsModel, DiagnosticModel>
    decreases ms.len(),
{
    if ms.len() == 0 {
        Ok(st)
    } else {
        match modules_facts(all, om, ms.drop_last(), st) {
            Err(e) => Err(e),
            Ok(mid) => items_facts(
                FactsContext { module: ms.last().name@, modules: all, om },
                Seq::empty(),
                ms.last().items@,
                mid,
            ),
        }
    }
}

/// The facts of a design: those of its modules, or the first diagnostic.
pub open spec fn design_facts(ms: Seq<EirModule>, om: Map<Seq<char>, OpaqueModel>) -> Result<
    FactsModel,
    DiagnosticModel,
> {
    modules_facts(ms, om, ms, no_facts())
}

// ---------------------------------------------------------------------------
// Lemmas
// ---------------------------------------------------------------------------

/// A frame equal to one that is the scope is the scope too.
proof fn lemma_frame_is_equal(a: EirGuardFrame, b: EirGuardFrame, m: ScopeModel)
    requires
        frame_equal(a, b),
        frame_is(b, m),
    ensures
        frame_is(a, m),
{
    if let ScopeModel::Loop(l, i, st, en, sp) = m {
        if let EirGuardFrame::Loop { start, end, .. } = a {
            if let EirGuardFrame::Loop { start: s2, end: e2, .. } = b {
                lemma_same_expr_transitive(*start.expr, *s2.expr, st);
                lemma_same_expr_transitive(*end.expr, *e2.expr, en);
            }
        }
    }
}

/// Frames equal to frames that are the scopes are the scopes too.
proof fn lemma_frames_are_equal(a: Seq<EirGuardFrame>, b: Seq<EirGuardFrame>, ms: Seq<ScopeModel>)
    requires
        frames_equal(a, b),
        frames_are(b, ms),
    ensures
        frames_are(a, ms),
{
    assert forall|i: int| 0 <= i < a.len() implies frame_is(#[trigger] a[i], ms[i]) by {
        lemma_frame_is_equal(a[i], b[i], ms[i]);
    }
}

proof fn lemma_with_object(
    objects: Seq<EirObject>,
    drives: Seq<EirDrive>,
    reads: Seq<EirRead>,
    m: FactsModel,
    o: EirObject,
    om: ObjectModel,
)
    requires
        facts_are(objects, drives, reads, m),
        object_is(o, om),
    ensures
        facts_are(objects.push(o), drives, reads, with_object(m, om)),
{
    assert forall|i: int| 0 <= i < objects.len() + 1 implies object_is(
        #[trigger] objects.push(o)[i],
        with_object(m, om).objects[i],
    ) by {
        if i < objects.len() {
            assert(objects.push(o)[i] == objects[i]);
        }
    }
}

proof fn lemma_with_drive(
    objects: Seq<EirObject>,
    drives: Seq<EirDrive>,
    reads: Seq<EirRead>,
    m: FactsModel,
    d: EirDrive,
    dm: DriveModel,
)
    requires
        facts_are(objects, drives, reads, m),
        drive_is(d, dm),
    ensures
        facts_are(objects, drives.push(d), reads, with_drive(m, dm)),
{
    assert forall|i: int| 0 <= i < drives.len() + 1 implies drive_is(
        #[trigger] drives.push(d)[i],
        with_drive(m, dm).drives[i],
    ) by {
        if i < drives.len() {
            assert(drives.push(d)[i] == drives[i]);
        }
    }
}

proof fn lemma_with_read(
    objects: Seq<EirObject>,
    drives: Seq<EirDrive>,
    reads: Seq<EirRead>,
    m: FactsModel,
    r: EirRead,
    rm: ReadModel,
)
    requires
        facts_are(objects, drives, reads, m),
        read_is(r, rm),
    ensures
        facts_are(objects, drives, reads.push(r), with_read(m, rm)),
{
    assert forall|i: int| 0 <= i < reads.len() + 1 implies read_is(
        #[trigger] reads.push(r)[i],
        with_read(m, rm).reads[i],
    ) by {
        if i < reads.len() {
            assert(reads.push(r)[i] == reads[i]);
        }
    }
}

/// A diagnostic with no related places says what its plain model says.
proof fn lemma_plain(d: DriverDiagnostic)
    requires
        d.related@.len() == 0,
    ensures
        diag_model(d) == plain_diag(crate::drc::error_spec(d.kind), d.span),
{
    assert(crate::drc::related_views(d.related@) =~= Seq::<(Span, Seq<char>)>::empty());
}

/// A diagnostic among the first reads is the diagnostic of all of them.
proof fn lemma_reads_facts_err(
    cx: FactsContext,
    scopes: Seq<ScopeModel>,
    reads: Seq<EirExpr>,
    k: int,
    origin: EirOrigin,
    st: FactsModel,
)
    requires
        0 <= k <= reads.len(),
        reads_facts(cx, scopes, reads.take(k), origin, st) is Err,
    ensures
        reads_facts(cx, scopes, reads, origin, st) == reads_facts(cx, scopes, reads.take(k), origin, st),
    decreases reads.len() - k,
{
    if k < reads.len() {
        assert(reads.take(k + 1).drop_last() =~= reads.take(k));
        lemma_reads_facts_err(cx, scopes, reads, k + 1, origin, st);
    } else {
        assert(reads.take(k) =~= reads);
    }
}

/// A diagnostic among the first connections is the diagnostic of all of
/// them.
proof fn lemma_connections_facts_err(
    cx: FactsContext,
    scopes: Seq<ScopeModel>,
    inst: EirInstance,
    ports: Seq<EirPort>,
    roots: Seq<Seq<char>>,
    cs: Seq<EirConnection>,
    k: int,
    st: FactsModel,
)
    requires
        0 <= k <= cs.len(),
        connections_facts(cx, scopes, inst, ports, roots, cs.take(k), st) is Err,
    ensures
        connections_facts(cx, scopes, inst, ports, roots, cs, st) == connections_facts(
            cx,
            scopes,
            inst,
            ports,
            roots,
            cs.take(k),
            st,
        ),
    decreases cs.len() - k,
{
    if k < cs.len() {
        assert(cs.take(k + 1).drop_last() =~= cs.take(k));
        lemma_connections_facts_err(cx, scopes, inst, ports, roots, cs, k + 1, st);
    } else {
        assert(cs.take(k) =~= cs);
    }
}

/// A diagnostic among the first driven fields is the diagnostic of all of
/// them.
proof fn lemma_driven_facts_err(
    cx: FactsContext,
    scopes: Seq<ScopeModel>,
    inst: EirInstance,
    fields: Seq<Seq<char>>,
    k: int,
    st: FactsModel,
)
    requires
        0 <= k <= fields.len(),
        driven_facts(cx, scopes, inst, fields.take(k), st) is Err,
    ensures
        driven_facts(cx, scopes, inst, fields, st) == driven_facts(cx, scopes, inst, fields.take(k), st),
    decreases fields.len() - k,
{
    if k < fields.len() {
        assert(fields.take(k + 1).drop_last() =~= fields.take(k));
        lemma_driven_facts_err(cx, scopes, inst, fields, k + 1, st);
    } else {
        assert(fields.take(k) =~= fields);
    }
}

/// A diagnostic among the first consumed fields is the diagnostic of all
/// of them.
proof fn lemma_consumed_facts_err(
    cx: FactsContext,
    scopes: Seq<ScopeModel>,
    inst: EirInstance,
    roots: Seq<Seq<char>>,
    fields: Seq<Seq<char>>,
    k: int,
    st: FactsModel,
)
    requires
        0 <= k <= fields.len(),
        consumed_facts(cx, scopes, inst, roots, fields.take(k), st) is Err,
    ensures
        consumed_facts(cx, scopes, inst, roots, fields, st) == consumed_facts(
            cx,
            scopes,
            inst,
            roots,
            fields.take(k),
            st,
        ),
    decreases fields.len() - k,
{
    if k < fields.len() {
        assert(fields.take(k + 1).drop_last() =~= fields.take(k));
        lemma_consumed_facts_err(cx, scopes, inst, roots, fields, k + 1, st);
    } else {
        assert(fields.take(k) =~= fields);
    }
}

/// A diagnostic among the first items is the diagnostic of all of them.
proof fn lemma_items_facts_err(
    cx: FactsContext,
    scopes: Seq<ScopeModel>,
    items: Seq<EirItem>,
    k: int,
    st: FactsModel,
)
    requires
        0 <= k <= items.len(),
        items_facts(cx, scopes, items.subrange(0, k), st) is Err,
    ensures
        items_facts(cx, scopes, items, st) == items_facts(cx, scopes, items.subrange(0, k), st),
    decreases items.len() - k,
{
    if k < items.len() {
        let s1 = items.subrange(0, k + 1);
        assert(s1.subrange(0, s1.len() - 1) =~= items.subrange(0, k));
        lemma_items_facts_err(cx, scopes, items, k + 1, st);
    } else {
        assert(items.subrange(0, k) =~= items);
    }
}

/// A diagnostic among the first modules is the diagnostic of all of them.
proof fn lemma_modules_facts_err(
    all: Seq<EirModule>,
    om: Map<Seq<char>, OpaqueModel>,
    ms: Seq<EirModule>,
    k: int,
    st: FactsModel,
)
    requires
        0 <= k <= ms.len(),
        modules_facts(all, om, ms.take(k), st) is Err,
    ensures
        modules_facts(all, om, ms, st) == modules_facts(all, om, ms.take(k), st),
    decreases ms.len() - k,
{
    if k < ms.len() {
        assert(ms.take(k + 1).drop_last() =~= ms.take(k));
        lemma_modules_facts_err(all, om, ms, k + 1, st);
    } else {
        assert(ms.take(k) =~= ms);
    }
}

// ---------------------------------------------------------------------------
// The collector
// ---------------------------------------------------------------------------

/// The port names and directions of a module.
pub open spec fn port_entries_are(es: Seq<(String, EirDirection)>, ps: Seq<EirPort>) -> bool {
    es.len() == ps.len() && forall|j: int|
        0 <= j < es.len() ==> (#[trigger] es[j]).0@ == ps[j].name@ && es[j].1 == ps[j].direction
}

/// The ports of every module, in the order of the modules.
pub open spec fn ports_index_is(idx: Seq<(String, Vec<(String, EirDirection)>)>, ms: Seq<EirModule>) -> bool {
    idx.len() == ms.len() && forall|i: int|
        0 <= i < idx.len() ==> (#[trigger] idx[i]).0@ == ms[i].name@ && port_entries_are(
            idx[i].1@,
            ms[i].ports@,
        )
}

/// Gathers the objects, drives and reads of a design's items.
pub struct EirFactCollector {
    pub objects: Vec<EirObject>,
    pub drives: Vec<EirDrive>,
    pub reads: Vec<EirRead>,
    pub opaque_summaries: OpaqueSummaryTable,
    pub module_ports: Vec<(String, Vec<(String, EirDirection)>)>,
    pub guard_stack: Vec<EirGuardFrame>,
    pub module: String,
}

impl EirFactCollector {
    /// The collector walks the module of `cx` inside the scopes, having
    /// gathered the facts of `m`.
    pub open spec fn in_context(&self, cx: FactsContext, scopes: Seq<ScopeModel>, m: FactsModel) -> bool {
        &&& self.module@ == cx.module
        &&& self.opaque_summaries.view_map() == cx.om
        &&& ports_index_is(self.module_ports@, cx.modules)
        &&& frames_are(self.guard_stack@, scopes)
        &&& facts_are(self.objects@, self.drives@, self.reads@, m)
    }

    /// A collector that knows the given opaque modules, with nothing
    /// gathered yet.
    pub fn new(opaque_summaries: &OpaqueSummaryTable) -> (r: Self)
        ensures
            r.objects@.len() == 0,
            r.drives@.len() == 0,
            r.reads@.len() == 0,
            r.opaque_summaries.view_map() == opaque_summaries.view_map(),
            r.module_ports@.len() == 0,
            r.guard_stack@.len() == 0,
    {
        EirFactCollector {
            objects: Vec::new(),
            drives: Vec::new(),
            reads: Vec::new(),
            opaque_summaries: opaque_summaries.copy(),
            module_ports: Vec::new(),
            guard_stack: Vec::new(),
            module: String::new(),
        }
    }

    /// Records the port names and directions of every module.
    pub fn index_module_ports(&mut self, modules: &[EirModule])
        ensures
            ports_index_is(final(self).module_ports@, modules@),
            final(self).objects == old(self).objects,
            final(self).drives == old(self).drives,
            final(self).reads == old(self).reads,
            final(self).opaque_summaries == old(self).opaque_summaries,
            final(self).guard_stack == old(self).guard_stack,
            final(self).module == old(self).module,
    {
        self.module_ports = Vec::new();
        let mut i: usize = 0;
        while i < modules.len()
            invariant
                i <= modules.len(),
                self.objects == old(self).objects,
                self.drives == old(self).drives,
                self.reads == old(self).reads,
                self.opaque_summaries == old(self).opaque_summaries,
                self.guard_stack == old(self).guard_stack,
                self.module == old(self).module,
                ports_index_is(self.module_ports@, modules@.subrange(0, i as int)),
            decreases modules.len() - i,
        {
            let module = &modules[i];
            let ports = module.ports();
            let mut entries: Vec<(String, EirDirection)> = Vec::new();
            let mut j: usize = 0;
            while j < ports.len()
                invariant
                    j <= ports.len(),
                    ports@ == module.ports@,
                    entries@.len() == j,
                    forall|k: int|
                        0 <= k < j ==> (#[trigger] entries@[k]).0@ == ports@[k].name@ && entries@[k].1
                            == ports@[k].direction,
                decreases ports.len() - j,
            {
                entries.push((ports[j].name().to_owned(), ports[j].direction()));
                j = j + 1;
            }
            let ghost before = self.module_ports@;
            self.module_ports.push((module.name().to_owned(), entries));
            proof {
                let idx = self.module_ports@;
                let ms = modules@.subrange(0, i + 1);
                assert forall|k: int| 0 <= k < idx.len() implies (#[trigger] idx[k]).0@ == ms[k].name@
                    && port_entries_are(idx[k].1@, ms[k].ports@) by {
                    if k < i {
                        assert(idx[k] == before[k]);
                        assert(ms[k] == modules@.subrange(0, i as int)[k]);
                    }
                }
            }
            i = i + 1;
        }
        proof {
            assert(modules@.subrange(0, modules@.len() as int) =~= modules@);
        }
    }

    /// The guard of the current scopes.
    pub fn guard(&self) -> (r: EirGuard)
        ensures
            frames_equal(r.frames@, self.guard_stack@),
    {
        if self.guard_stack.len() == 0 {
            EirGuard::root()
        } else {
            EirGuard::from_frames(self.guard_stack.as_slice())
        }
    }

    /// The position of the last module with the given name.
    fn module_index(&self, name: &str, Ghost(ms): Ghost<Seq<EirModule>>) -> (r: Option<usize>)
        requires
            ports_index_is(self.module_ports@, ms),
        ensures
            match ports_of(ms, name@) {
                None => r is None,
                Some(ps) => r matches Some(i) && i < self.module_ports@.len() && port_entries_are(
                    self.module_ports@[i as int].1@,
                    ps,
                ),
            },
    {
        let mut i: usize = self.module_ports.len();
        proof {
            assert(ms.subrange(0, ms.len() as int) =~= ms);
        }
        while i > 0
            invariant
                i <= self.module_ports.len(),
                ports_index_is(self.module_ports@, ms),
                ports_of(ms, name@) == ports_of(ms.subrange(0, i as int), name@),
            decreases i,
        {
            let ghost sub = ms.subrange(0, i as int);
            proof {
                assert(sub.drop_last() =~= ms.subrange(0, i - 1));
                assert(sub.last() == ms[i - 1]);
            }
            if str_eq(self.module_ports[i - 1].0.as_str(), name) {
                return Some(i - 1);
            }
            i = i - 1;
        }
        None
    }

    /// The direction of the first port named `formal` of the indexed module.
    fn port_direction_at(&self, index: usize, formal: &str) -> (r: Option<EirDirection>)
        requires
            index < self.module_ports@.len(),
        ensures
            forall|ps: Seq<EirPort>|
                port_entries_are(self.module_ports@[index as int].1@, ps) ==> r == port_direction(
                    ps,
                    formal@,
                ),
    {
        let entries = &self.module_ports[index].1;
        let mut j: usize = 0;
        proof {
            assert forall|ps: Seq<EirPort>| port_entries_are(entries@, ps) implies port_direction(
                ps,
                formal@,
            ) == port_direction(ps.skip(0), formal@) by {
                assert(ps.skip(0) =~= ps);
            }
        }
        while j < entries.len()
            invariant
                j <= entries.len(),
                entries == self.module_ports@[index as int].1,
                forall|ps: Seq<EirPort>|
                    port_entries_are(entries@, ps) ==> port_direction(ps, formal@) == port_direction(
                        ps.skip(j as int),
                        formal@,
                    ),
            decreases entries.len() - j,
        {
            proof {
                assert forall|ps: Seq<EirPort>| port_entries_are(entries@, ps) implies port_direction(
                    ps.skip(j as int),
                    formal@,
                ) == if entries@[j as int].0@ == formal@ {
                    Some(entries@[j as int].1)
                } else {
                    port_direction(ps.skip(j + 1), formal@)
                } by {
                    assert(ps.skip(j as int)[0] == ps[j as int]);
                    assert(ps.skip(j as int).drop_first() =~= ps.skip(j + 1));
                }
            }
            if str_eq(entries[j].0.as_str(), formal) {
                return Some(entries[j].1);
            }
            j = j + 1;
        }
        proof {
            assert forall|ps: Seq<EirPort>| port_entries_are(entries@, ps) implies port_direction(
                ps.skip(j as int),
                formal@,
            ) is None by {
                assert(ps.skip(j as int).len() == 0);
            }
        }
        None
    }

    /// The names a read of an instance connection may start from: the
    /// ports of the current module, then the objects declared in it so far.
    pub fn hardware_read_roots(&self, Ghost(cx): Ghost<FactsContext>, Ghost(scopes): Ghost<Seq<ScopeModel>>, Ghost(m): Ghost<FactsModel>) -> (r: Vec<String>)
        requires
            self.in_context(cx, scopes, m),
        ensures
            name_views(r@) == hardware_roots(cx, m),
    {
        let mut roots: Vec<String> = Vec::new();
        let ghost port_names = match ports_of(cx.modules, cx.module) {
            Some(ps) => ps.map_values(|p: EirPort| p.name@),
            None => Seq::empty(),
        };
        match self.module_index(self.module.as_str(), Ghost(cx.modules)) {
            Some(index) => {
                let ports = &self.module_ports[index].1;
                let mut j: usize = 0;
                while j < ports.len()
                    invariant
                        j <= ports.len(),
                        roots@.len() == j,
                        port_entries_are(ports@, ports_of(cx.modules, cx.module)->0),
                        ports_of(cx.modules, cx.module) is Some,
                        forall|k: int| 0 <= k < j ==> (#[trigger] roots@[k])@ == ports@[k].0@,
                    decreases ports.len() - j,
                {
                    roots.push(ports[j].0.clone());
                    j = j + 1;
                }
                proof {
                    assert(name_views(roots@) =~= port_names);
                }
            },
            None => {
                proof {
                    assert(name_views(roots@) =~= port_names);
                }
            },
        }
        let objects = self.objects.as_slice();
        let mut k: usize = 0;
        proof {
            assert(m.objects.subrange(0, 0) =~= Seq::<ObjectModel>::empty());
        }
        while k < objects.len()
            invariant
                k <= objects.len(),
                objects@ == self.objects@,
                self.in_context(cx, scopes, m),
                name_views(roots@) == port_names + module_object_names(m.objects.subrange(0, k as int), cx.module),
            decreases objects.len() - k,
        {
            let ghost sub = m.objects.subrange(0, k + 1);
            proof {
                assert(sub.drop_last() =~= m.objects.subrange(0, k as int));
                assert(sub.last() == m.objects[k as int]);
                assert(object_is(objects@[k as int], m.objects[k as int]));
            }
            let ghost before = roots@;
            if str_eq(objects[k].module(), self.module.as_str()) {
                roots.push(objects[k].name().to_owned());
                proof {
                    assert(name_views(roots@) =~= name_views(before).push(objects@[k as int].name@));
                }
            }
            k = k + 1;
        }
        proof {
            assert(m.objects.subrange(0, objects@.len() as int) =~= m.objects);
        }
        roots
    }

    /// The expression connected to the port `formal` of the instance.
    pub fn instance_connection<'i>(&self, instance: &'i EirInstance, formal: &str) -> (r: Result<
        &'i EirExpr,
        DriverDiagnostic,
    >)
        ensures
            match connection_for(instance.connections@, formal@) {
                Some(a) => r matches Ok(x) && *x == a,
                None => r matches Err(d) && diag_model(d) == plain_diag(
                    ErrorSpec::UnknownParameter(formal@, instance.module@),
                    instance.origin.span,
                ),
            },
    {
        let connections = instance.connections();
        let mut i: usize = 0;
        proof {
            assert(connections@.skip(0) =~= connections@);
        }
        while i < connections.len()
            invariant
                i <= connections.len(),
                connections@ == instance.connections@,
                connection_for(instance.connections@, formal@) == connection_for(connections@.skip(i as int), formal@),
            decreases connections.len() - i,
        {
            proof {
                assert(connections@.skip(i as int)[0] == connections@[i as int]);
                assert(connections@.skip(i as int).drop_first() =~= connections@.skip(i + 1));
            }
            if str_eq(connections[i].formal(), formal) {
                return Ok(connections[i].actual());
            }
            i = i + 1;
        }
        let d = DriverDiagnostic::driver_error(
            DriverError::UnknownParameter { name: formal.to_owned(), callable: instance.module().to_owned() },
            instance.origin().span(),
        );
        proof {
            lemma_plain(d);
        }
        Err(d)
    }

    /// Adds a read of each place the expression reads, in the order of
    /// their fact keys.
    fn record_place_reads(
        &mut self,
        actual: &EirExpr,
        roots: &Vec<String>,
        guard: &EirGuard,
        origin: &EirOrigin,
        Ghost(cx): Ghost<FactsContext>,
        Ghost(scopes): Ghost<Seq<ScopeModel>>,
        Ghost(m0): Ghost<FactsModel>,
    )
        requires
            old(self).in_context(cx, scopes, m0),
            frames_are(guard.frames@, scopes),
        ensures
            final(self).in_context(cx, scopes, instance_reads(cx, scopes, *origin, *actual, name_views(roots@), m0)),
            final(self).objects == old(self).objects,
            final(self).module_ports == old(self).module_ports,
    {
        let ghost es = read_place_exprs(*actual, name_views(roots@));
        let places = EirReadPlaceCollector::new(roots).collect(actual);
        let ghost all = places@;
        let n = places.len();
        let mut rest = places;
        let mut j: usize = 0;
        proof {
            assert(m0.reads + read_models(cx.module, scopes, *origin, es.take(0)) =~= m0.reads);
            assert(FactsModel { reads: m0.reads + read_models(cx.module, scopes, *origin, es.take(0)), ..m0 } == m0);
        }
        while j < n
            invariant
                j <= n,
                n == all.len(),
                all.len() == es.len(),
                rest@ == all.skip(j as int),
                forall|a: int| 0 <= a < all.len() ==> expr_is_place(#[trigger] es[a], all[a]),
                frames_are(guard.frames@, scopes),
                self.objects == old(self).objects,
                self.module_ports == old(self).module_ports,
                self.in_context(cx, scopes, FactsModel { reads: m0.reads + read_models(cx.module, scopes, *origin, es.take(j as int)), ..m0 }),
            decreases n - j,
        {
            let ghost cur = FactsModel { reads: m0.reads + read_models(cx.module, scopes, *origin, es.take(j as int)), ..m0 };
            let place = rest.remove(0);
            proof {
                assert(place == all[j as int]);
                assert(rest@ =~= all.skip(j + 1));
            }
            let read_guard = EirGuard::from_frames(guard.frames());
            let read = EirRead::new(self.module.as_str(), place, read_guard, origin.copy());
            proof {
                lemma_frames_are_equal(read_guard.frames@, guard.frames@, scopes);
                let rm = ReadModel { module: cx.module, source: PlaceModel::Expr(es[j as int]), scopes, origin: *origin };
                assert(rm.module == cx.module && rm.scopes == scopes && rm.origin == *origin);
                assert(rm.source == PlaceModel::Expr(es[j as int]));
                assert(expr_is_place(es[j as int], all[j as int]));
                assert(place_is(read.source, rm.source));
                assert(frames_are(read.guard.frames@, rm.scopes));
                assert(same_origin(read.origin, rm.origin));
                assert(read_is(read, rm));
                lemma_with_read(self.objects@, self.drives@, self.reads@, cur, read, rm);
                assert(m0.reads + read_models(cx.module, scopes, *origin, es.take(j + 1)) =~= (m0.reads + read_models(cx.module, scopes, *origin, es.take(j as int))).push(
                    rm,
                ));
            }
            self.reads.push(read);
            j = j + 1;
        }
        proof {
            assert(es.take(es.len() as int) =~= es);
        }
    }

    /// Adds a read of each listed expression, each of which must denote a
    /// place.
    fn record_reads(
        &mut self,
        reads: &[EirExpr],
        origin: &EirOrigin,
        Ghost(cx): Ghost<FactsContext>,
        Ghost(scopes): Ghost<Seq<ScopeModel>>,
        Ghost(m0): Ghost<FactsModel>,
    ) -> (r: Result<(), DriverDiagnostic>)
        requires
            old(self).in_context(cx, scopes, m0),
        ensures
            final(self).objects == old(self).objects,
            final(self).module_ports == old(self).module_ports,
            match reads_facts(cx, scopes, reads@, *origin, m0) {
                Ok(m) => r is Ok && final(self).in_context(cx, scopes, m),
                Err(e) => r matches Err(d) && diag_model(d) == e,
            },
    {
        let guard = self.guard();
        proof {
            lemma_frames_are_equal(guard.frames@, self.guard_stack@, scopes);
            assert(reads@.take(0) =~= Seq::<EirExpr>::empty());
        }
        let ghost mut cur = m0;
        let mut i: usize = 0;
        while i < reads.len()
            invariant
                i <= reads.len(),
                frames_are(guard.frames@, scopes),
                self.objects == old(self).objects,
                self.module_ports == old(self).module_ports,
                reads_facts(cx, scopes, reads@.take(i as int), *origin, m0) == Ok::<FactsModel, DiagnosticModel>(cur),
                self.in_context(cx, scopes, cur),
            decreases reads.len() - i,
        {
            proof {
                assert(reads@.take(i + 1).drop_last() =~= reads@.take(i as int));
                assert(reads@.take(i + 1).last() == reads@[i as int]);
            }
            let place = match EirPlace::try_from_expr(&reads[i]) {
                Ok(place) => place,
                Err(_) => {
                    let d = DriverDiagnostic::driver_error(
                        DriverError::UnsupportedHardwareValueExpression,
                        origin.span(),
                    );
                    proof {
                        lemma_plain(d);
                        lemma_reads_facts_err(cx, scopes, reads@, i + 1, *origin, m0);
                    }
                    return Err(d);
                },
            };
            let read = EirRead::new(self.module.as_str(), place, EirGuard::from_frames(guard.frames()), origin.copy());
            proof {
                let rm = ReadModel { module: cx.module, source: PlaceModel::Expr(reads@[i as int]), scopes, origin: *origin };
                lemma_frames_are_equal(read.guard.frames@, guard.frames@, scopes);
                lemma_with_read(self.objects@, self.drives@, self.reads@, cur, read, rm);
                cur = with_read(cur, rm);
            }
            self.reads.push(read);
            i = i + 1;
        }
        proof {
            assert(reads@.take(reads@.len() as int) =~= reads@);
        }
        Ok(())
    }

    /// Adds the facts of an instance through the ports of its module.
    fn record_signature_instance_facts(
        &mut self,
        instance: &EirInstance,
        Ghost(cx): Ghost<FactsContext>,
        Ghost(scopes): Ghost<Seq<ScopeModel>>,
        Ghost(m0): Ghost<FactsModel>,
    ) -> (r: Result<(), DriverDiagnostic>)
        requires
            old(self).in_context(cx, scopes, m0),
        ensures
            final(self).objects == old(self).objects,
            final(self).module_ports == old(self).module_ports,
            match signature_facts(cx, scopes, *instance, m0) {
                Ok(m) => r is Ok && final(self).in_context(cx, scopes, m),
                Err(e) => r matches Err(d) && diag_model(d) == e,
            },
    {
        let guard = self.guard();
        proof {
            lemma_frames_are_equal(guard.frames@, self.guard_stack@, scopes);
        }
        let index = match self.module_index(instance.module(), Ghost(cx.modules)) {
            Some(index) => index,
            None => {
                let d = DriverDiagnostic::driver_error(
                    DriverError::UnknownHardwareObject {
                        module: self.module.clone(),
                        name: instance.module().to_owned(),
                    },
                    instance.origin().span(),
                );
                proof {
                    lemma_plain(d);
                }
                return Err(d);
            },
        };
        let ghost ports = ports_of(cx.modules, instance.module@)->0;
        let roots = self.hardware_read_roots(Ghost(cx), Ghost(scopes), Ghost(m0));
        let ghost rootm = hardware_roots(cx, m0);
        let connections = instance.connections();
        let ghost cs = connections@;
        let ghost mut cur = m0;
        proof {
            assert(cs.take(0) =~= Seq::<EirConnection>::empty());
        }
        let mut i: usize = 0;
        while i < connections.len()
            invariant
                i <= connections.len(),
                cs == connections@,
                cs == instance.connections@,
                frames_are(guard.frames@, scopes),
                self.objects == old(self).objects,
                self.module_ports == old(self).module_ports,
                index < self.module_ports@.len(),
                ports_of(cx.modules, instance.module@) == Some(ports),
                rootm == hardware_roots(cx, m0),
                port_entries_are(self.module_ports@[index as int].1@, ports),
                name_views(roots@) == rootm,
                connections_facts(cx, scopes, *instance, ports, rootm, cs.take(i as int), m0) == Ok::<
                    FactsModel,
                    DiagnosticModel,
                >(cur),
                self.in_context(cx, scopes, cur),
            decreases connections.len() - i,
        {
            let connection = &connections[i];
            proof {
                assert(cs.take(i + 1).drop_last() =~= cs.take(i as int));
                assert(cs.take(i + 1).last() == cs[i as int]);
            }
            let direction = match self.port_direction_at(index, connection.formal()) {
                Some(direction) => direction,
                None => {
                    let d = DriverDiagnostic::driver_error(
                        DriverError::UnknownParameter {
                            name: connection.formal().to_owned(),
                            callable: instance.module().to_owned(),
                        },
                        instance.origin().span(),
                    );
                    proof {
                        lemma_plain(d);
                        lemma_connections_facts_err(cx, scopes, *instance, ports, rootm, cs, i + 1, m0);
                    }
                    return Err(d);
                },
            };
            if direction == EirDirection::In || direction == EirDirection::InOut {
                self.record_place_reads(
                    connection.actual(),
                    &roots,
                    &guard,
                    instance.origin(),
                    Ghost(cx),
                    Ghost(scopes),
                    Ghost(cur),
                );
                proof {
                    cur = instance_reads(cx, scopes, instance.origin, connection.actual, rootm, cur);
                }
            }
            if direction == EirDirection::InOut || direction == EirDirection::Out {
                let target = match EirPlace::try_from_expr(connection.actual()) {
                    Ok(target) => target,
                    Err(_) => {
                        let d = DriverDiagnostic::driver_error(
                            DriverError::UnsupportedHardwareValueExpression,
                            instance.origin().span(),
                        );
                        proof {
                            lemma_plain(d);
                            lemma_connections_facts_err(cx, scopes, *instance, ports, rootm, cs, i + 1, m0);
                        }
                        return Err(d);
                    },
                };
                let value = if direction == EirDirection::InOut {
                    Some(EirExpr::unsupported("instance inout enable is unknown"))
                } else {
                    None
                };
                let drive = EirDrive::new(EirDriveInput {
                    module: self.module.clone(),
                    target,
                    kind: EirDriveKind::Continuous,
                    value,
                    guard: EirGuard::from_frames(guard.frames()),
                    origin: instance.origin().copy(),
                });
                proof {
                    let dm = DriveModel {
                        module: cx.module,
                        target: PlaceModel::Expr(connection.actual),
                        kind: EirDriveKind::Continuous,
                        value: if direction == EirDirection::InOut {
                            ValueModel::UnknownEnable
                        } else {
                            ValueModel::Absent
                        },
                        scopes,
                        origin: instance.origin,
                    };
                    lemma_frames_are_equal(drive.guard.frames@, guard.frames@, scopes);
                    assert(drive_is(drive, dm));
                    lemma_with_drive(self.objects@, self.drives@, self.reads@, cur, drive, dm);
                    cur = with_drive(cur, dm);
                }
                self.drives.push(drive);
            }
            i = i + 1;
        }
        proof {
            assert(cs.take(cs.len() as int) =~= cs);
        }
        Ok(())
    }

    /// Adds the facts of an instance of a module the opaque table
    /// summarises: a drive for each field it drives, then the reads of each
    /// field it reads.
    fn record_summary_instance_facts(
        &mut self,
        instance: &EirInstance,
        summary: &OpaqueItemSummary,
        Ghost(cx): Ghost<FactsContext>,
        Ghost(scopes): Ghost<Seq<ScopeModel>>,
        Ghost(m0): Ghost<FactsModel>,
    ) -> (r: Result<(), DriverDiagnostic>)
        requires
            old(self).in_context(cx, scopes, m0),
        ensures
            final(self).objects == old(self).objects,
            final(self).module_ports == old(self).module_ports,
            match summary_facts(cx, scopes, *instance, summary_model(*summary), m0) {
                Ok(m) => r is Ok && final(self).in_context(cx, scopes, m),
                Err(e) => r matches Err(d) && diag_model(d) == e,
            },
    {
        let guard = self.guard();
        proof {
            lemma_frames_are_equal(guard.frames@, self.guard_stack@, scopes);
        }
        let roots = self.hardware_read_roots(Ghost(cx), Ghost(scopes), Ghost(m0));
        let ghost rootm = hardware_roots(cx, m0);
        let driven = summary.driven_fields();
        let ghost dv = field_views(driven@);
        let ghost mut cur = m0;
        proof {
            assert(dv.take(0) =~= Seq::<Seq<char>>::empty());
        }
        let mut i: usize = 0;
        while i < driven.len()
            invariant
                i <= driven.len(),
                dv == field_views(driven@),
                dv == summary_model(*summary).driven,
                frames_are(guard.frames@, scopes),
                self.objects == old(self).objects,
                self.module_ports == old(self).module_ports,
                name_views(roots@) == rootm,
                driven_facts(cx, scopes, *instance, dv.take(i as int), m0) == Ok::<FactsModel, DiagnosticModel>(
                    cur,
                ),
                self.in_context(cx, scopes, cur),
            decreases driven.len() - i,
        {
            proof {
                assert(dv.take(i + 1).drop_last() =~= dv.take(i as int));
                assert(dv.take(i + 1).last() == dv[i as int]);
                assert(dv[i as int] == driven@[i as int]@);
            }
            let actual = match self.instance_connection(instance, driven[i].as_str()) {
                Ok(actual) => actual,
                Err(d) => {
                    proof {
                        lemma_driven_facts_err(cx, scopes, *instance, dv, i + 1, m0);
                    }
                    return Err(d);
                },
            };
            let target = match EirPlace::try_from_expr(actual) {
                Ok(target) => target,
                Err(_) => {
                    let d = DriverDiagnostic::driver_error(
                        DriverError::UnsupportedHardwareValueExpression,
                        instance.origin().span(),
                    );
                    proof {
                        lemma_plain(d);
                        lemma_driven_facts_err(cx, scopes, *instance, dv, i + 1, m0);
                    }
                    return Err(d);
                },
            };
            let drive = EirDrive::new(EirDriveInput {
                module: self.module.clone(),
                target,
                kind: EirDriveKind::Continuous,
                value: None,
                guard: EirGuard::from_frames(guard.frames()),
                origin: instance.origin().copy(),
            });
            proof {
                let dm = DriveModel {
                    module: cx.module,
                    target: PlaceModel::Expr(*actual),
                    kind: EirDriveKind::Continuous,
                    value: ValueModel::Absent,
                    scopes,
                    origin: instance.origin,
                };
                lemma_frames_are_equal(drive.guard.frames@, guard.frames@, scopes);
                lemma_with_drive(self.objects@, self.drives@, self.reads@, cur, drive, dm);
                cur = with_drive(cur, dm);
            }
            self.drives.push(drive);
            i = i + 1;
        }
        proof {
            assert(dv.take(dv.len() as int) =~= dv);
        }
        let ghost mid = cur;
        let consumed = summary.consumed_fields();
        let ghost cv = field_views(consumed@);
        proof {
            assert(cv.take(0) =~= Seq::<Seq<char>>::empty());
        }
        let mut j: usize = 0;
        while j < consumed.len()
            invariant
                j <= consumed.len(),
                cv == field_views(consumed@),
                cv == summary_model(*summary).consumed,
                driven_facts(cx, scopes, *instance, summary_model(*summary).driven, m0) == Ok::<
                    FactsModel,
                    DiagnosticModel,
                >(mid),
                rootm == hardware_roots(cx, m0),
                frames_are(guard.frames@, scopes),
                self.objects == old(self).objects,
                self.module_ports == old(self).module_ports,
                name_views(roots@) == rootm,
                consumed_facts(cx, scopes, *instance, rootm, cv.take(j as int), mid) == Ok::<
                    FactsModel,
                    DiagnosticModel,
                >(cur),
                self.in_context(cx, scopes, cur),
            decreases consumed.len() - j,
        {
            proof {
                assert(cv.take(j + 1).drop_last() =~= cv.take(j as int));
                assert(cv.take(j + 1).last() == cv[j as int]);
                assert(cv[j as int] == consumed@[j as int]@);
            }
            let actual = match self.instance_connection(instance, consumed[j].as_str()) {
                Ok(actual) => actual,
                Err(d) => {
                    proof {
                        lemma_consumed_facts_err(cx, scopes, *instance, rootm, cv, j + 1, mid);
                    }
                    return Err(d);
                },
            };
            self.record_place_reads(actual, &roots, &guard, instance.origin(), Ghost(cx), Ghost(scopes), Ghost(cur));
            proof {
                cur = instance_reads(cx, scopes, instance.origin, *actual, rootm, cur);
            }
            j = j + 1;
        }
        proof {
            assert(cv.take(cv.len() as int) =~= cv);
        }
        Ok(())
    }

    /// Adds the facts of an instance: through what the opaque table says of
    /// its module where it says anything, else through its module's ports.
    fn record_instance_facts(
        &mut self,
        instance: &EirInstance,
        Ghost(cx): Ghost<FactsContext>,
        Ghost(scopes): Ghost<Seq<ScopeModel>>,
        Ghost(m0): Ghost<FactsModel>,
    ) -> (r: Result<(), DriverDiagnostic>)
        requires
            old(self).in_context(cx, scopes, m0),
        ensures
            final(self).module_ports == old(self).module_ports,
            match instance_facts(cx, scopes, *instance, m0) {
                Ok(m) => r is Ok && final(self).in_context(cx, scopes, m),
                Err(e) => r matches Err(d) && diag_model(d) == e,
            },
    {
        match self.opaque_summaries.get(instance.module()) {
            Some(summary) => {
                let summary = summary.copy();
                self.record_summary_instance_facts(instance, &summary, Ghost(cx), Ghost(scopes), Ghost(m0))
            },
            None => self.record_signature_instance_facts(instance, Ghost(cx), Ghost(scopes), Ghost(m0)),
        }
    }

    /// Adds the facts of the items, in order, nested ones included; stops
    /// at the first diagnostic.
    pub fn collect_items(
        &mut self,
        items: &[EirItem],
        Ghost(cx): Ghost<FactsContext>,
        Ghost(scopes): Ghost<Seq<ScopeModel>>,
        Ghost(m0): Ghost<FactsModel>,
    ) -> (r: Result<(), DriverDiagnostic>)
        requires
            old(self).in_context(cx, scopes, m0),
        ensures
            final(self).module_ports == old(self).module_ports,
            match items_facts(cx, scopes, items@, m0) {
                Ok(m) => r is Ok && final(self).in_context(cx, scopes, m),
                Err(e) => r matches Err(d) && diag_model(d) == e,
            },
        decreases items@, 0nat,
    {
        let ghost mut cur = m0;
        proof {
            assert(items@.subrange(0, 0) =~= Seq::<EirItem>::empty());
        }
        let mut i: usize = 0;
        while i < items.len()
            invariant
                i <= items.len(),
                self.module_ports == old(self).module_ports,
                items_facts(cx, scopes, items@.subrange(0, i as int), m0) == Ok::<FactsModel, DiagnosticModel>(
                    cur,
                ),
                self.in_context(cx, scopes, cur),
            decreases items.len() - i,
        {
            let ghost s1 = items@.subrange(0, i + 1);
            proof {
                assert(s1.subrange(0, s1.len() - 1) =~= items@.subrange(0, i as int));
                assert(s1[s1.len() - 1] == items@[i as int]);
                assert(decreases_to!(items@ => items@[i as int]));
            }
            let step = match &items[i] {
                EirItem::Signal { width, name, activity, origin } => {
                    let object = EirObject::new(EirObjectInput {
                        module: self.module.clone(),
                        name: name.clone(),
                        width: width.clone(),
                        kind: EirObjectKind::Signal,
                        activity: *activity,
                        origin: origin.copy(),
                    });
                    proof {
                        let om = ObjectModel {
                            module: cx.module,
                            name: name@,
                            width: *width,
                            kind: EirObjectKind::Signal,
                            activity: *activity,
                            origin: *origin,
                        };
                        lemma_with_object(self.objects@, self.drives@, self.reads@, cur, object, om);
                        cur = with_object(cur, om);
                    }
                    self.objects.push(object);
                    Ok(())
                },
                EirItem::Storage { width, name, origin } => {
                    let object = EirObject::new(EirObjectInput {
                        module: self.module.clone(),
                        name: name.clone(),
                        width: width.clone(),
                        kind: EirObjectKind::Storage,
                        activity: EirSignalActivity::Required,
                        origin: origin.copy(),
                    });
                    proof {
                        let om = ObjectModel {
                            module: cx.module,
                            name: name@,
                            width: *width,
                            kind: EirObjectKind::Storage,
                            activity: EirSignalActivity::Required,
                            origin: *origin,
                        };
                        lemma_with_object(self.objects@, self.drives@, self.reads@, cur, object, om);
                        cur = with_object(cur, om);
                    }
                    self.objects.push(object);
                    Ok(())
                },
                EirItem::Drive { lhs, rhs, reads, origin } => {
                    let guard = self.guard();
                    let drive = EirDrive::new(EirDriveInput {
                        module: self.module.clone(),
                        target: lhs.copy(),
                        kind: EirDriveKind::Continuous,
                        value: Some(rhs.copy()),
                        guard,
                        origin: origin.copy(),
                    });
                    proof {
                        let dm = DriveModel {
                            module: cx.module,
                            target: PlaceModel::Place(*lhs),
                            kind: EirDriveKind::Continuous,
                            value: ValueModel::Copy(*rhs),
                            scopes,
                            origin: *origin,
                        };
                        lemma_frames_are_equal(drive.guard.frames@, self.guard_stack@, scopes);
                        lemma_with_drive(self.objects@, self.drives@, self.reads@, cur, drive, dm);
                        cur = with_drive(cur, dm);
                    }
                    self.drives.push(drive);
                    let r = self.record_reads(reads.as_slice(), origin, Ghost(cx), Ghost(scopes), Ghost(cur));
                    proof {
                        if let Ok(m) = reads_facts(cx, scopes, reads@, *origin, cur) {
                            cur = m;
                        }
                    }
                    r
                },
                EirItem::ClockedStorage { target, reads, origin, .. } => {
                    let guard = self.guard();
                    let drive = EirDrive::new(EirDriveInput {
                        module: self.module.clone(),
                        target: target.copy(),
                        kind: EirDriveKind::Next,
                        value: None,
                        guard,
                        origin: origin.copy(),
                    });
                    proof {
                        let dm = DriveModel {
                            module: cx.module,
                            target: PlaceModel::Place(*target),
                            kind: EirDriveKind::Next,
                            value: ValueModel::Absent,
                            scopes,
                            origin: *origin,
                        };
                        lemma_frames_are_equal(drive.guard.frames@, self.guard_stack@, scopes);
                        lemma_with_drive(self.objects@, self.drives@, self.reads@, cur, drive, dm);
                        cur = with_drive(cur, dm);
                    }
                    self.drives.push(drive);
                    let r = self.record_reads(reads.as_slice(), origin, Ghost(cx), Ghost(scopes), Ghost(cur));
                    proof {
                        if let Ok(m) = reads_facts(cx, scopes, reads@, *origin, cur) {
                            cur = m;
                        }
                    }
                    r
                },
                EirItem::CellExpansion(expansion) => {
                    let r = self.collect_items(expansion.items(), Ghost(cx), Ghost(scopes), Ghost(cur));
                    proof {
                        if let Ok(m) = items_facts(cx, scopes, expansion.items@, cur) {
                            cur = m;
                        }
                    }
                    r
                },
                EirItem::Instance(instance) => {
                    let r = self.record_instance_facts(instance, Ghost(cx), Ghost(scopes), Ghost(cur));
                    proof {
                        if let Ok(m) = instance_facts(cx, scopes, *instance, cur) {
                            cur = m;
                        }
                    }
                    r
                },
                EirItem::SymbolicStaticIf { label, then_items, else_items, origin, .. } => {
                    let span = origin.span();
                    let ghost then_scope = ScopeModel::IfThen(label@, span);
                    let ghost else_scope = ScopeModel::IfElse(label@, span);
                    match self.with_guard(
                        EirGuardFrame::if_then(label.as_str(), span),
                        then_items.as_slice(),
                        Ghost(cx),
                        Ghost(scopes),
                        Ghost(then_scope),
                        Ghost(cur),
                    ) {
                        Err(d) => Err(d),
                        Ok(()) => {
                            proof {
                                cur = items_facts(cx, scopes.push(then_scope), then_items@, cur)->Ok_0;
                            }
                            let r = self.with_guard(
                                EirGuardFrame::if_else(label.as_str(), span),
                                else_items.as_slice(),
                                Ghost(cx),
                                Ghost(scopes),
                                Ghost(else_scope),
                                Ghost(cur),
                            );
                            proof {
                                if let Ok(m) = items_facts(cx, scopes.push(else_scope), else_items@, cur) {
                                    cur = m;
                                }
                            }
                            r
                        },
                    }
                },
                EirItem::SymbolicStaticFor { index, start, end, label, items: body, origin } => {
                    let ghost scope = ScopeModel::Loop(label@, index@, *start, *end, origin.span);
                    let start_copy = start.copy();
                    let end_copy = end.copy();
                    proof {
                        lemma_same_expr_fact_key(start_copy, *start);
                        lemma_same_expr_fact_key(end_copy, *end);
                    }
                    let frame = EirGuardFrame::loop_frame(
                        label.as_str(),
                        index.as_str(),
                        EirBound::from_expr(start_copy),
                        EirBound::from_expr(end_copy),
                        origin.span(),
                    );
                    let r = self.with_guard(frame, body.as_slice(), Ghost(cx), Ghost(scopes), Ghost(scope), Ghost(cur));
                    proof {
                        if let Ok(m) = items_facts(cx, scopes.push(scope), body@, cur) {
                            cur = m;
                        }
                    }
                    r
                },
                _ => Ok(()),
            };
            match step {
                Err(d) => {
                    proof {
                        lemma_items_facts_err(cx, scopes, items@, i + 1, m0);
                    }
                    return Err(d);
                },
                Ok(()) => {},
            }
            i = i + 1;
        }
        proof {
            assert(items@.subrange(0, items@.len() as int) =~= items@);
        }
        Ok(())
    }

    /// Adds the facts of the items inside one more scope.
    pub fn with_guard(
        &mut self,
        guard: EirGuardFrame,
        items: &[EirItem],
        Ghost(cx): Ghost<FactsContext>,
        Ghost(scopes): Ghost<Seq<ScopeModel>>,
        Ghost(scope): Ghost<ScopeModel>,
        Ghost(m0): Ghost<FactsModel>,
    ) -> (r: Result<(), DriverDiagnostic>)
        requires
            old(self).in_context(cx, scopes, m0),
            frame_is(guard, scope),
        ensures
            final(self).module_ports == old(self).module_ports,
            match items_facts(cx, scopes.push(scope), items@, m0) {
                Ok(m) => r is Ok && final(self).in_context(cx, scopes, m),
                Err(e) => r matches Err(d) && diag_model(d) == e,
            },
        decreases items@, 1nat,
    {
        self.guard_stack.push(guard);
        proof {
            assert forall|k: int| 0 <= k < self.guard_stack@.len() implies frame_is(
                #[trigger] self.guard_stack@[k],
                scopes.push(scope)[k],
            ) by {
                if k < scopes.len() {
                    assert(self.guard_stack@[k] == old(self).guard_stack@[k]);
                }
            }
        }
        let r = self.collect_items(items, Ghost(cx), Ghost(scopes.push(scope)), Ghost(m0));
        match r {
            Err(d) => Err(d),
            Ok(()) => {
                let ghost before = self.guard_stack@;
                self.guard_stack.pop();
                proof {
                    assert(self.guard_stack@ =~= before.drop_last());
                    assert forall|k: int| 0 <= k < self.guard_stack@.len() implies frame_is(
                        #[trigger] self.guard_stack@[k],
                        scopes[k],
                    ) by {
                        assert(self.guard_stack@[k] == before[k]);
                        assert(scopes.push(scope)[k] == scopes[k]);
                    }
                }
                Ok(())
            },
        }
    }

    /// Adds the facts of every module, module by module; stops at the first
    /// diagnostic.
    pub fn collect_modules(&mut self, modules: &[EirModule]) -> (r: Result<(), DriverDiagnostic>)
        requires
            old(self).objects@.len() == 0,
            old(self).drives@.len() == 0,
            old(self).reads@.len() == 0,
        ensures
            match design_facts(modules@, old(self).opaque_summaries.view_map()) {
                Ok(m) => r is Ok && facts_are(final(self).objects@, final(self).drives@, final(self).reads@, m),
                Err(e) => r matches Err(d) && diag_model(d) == e,
            },
    {
        let ghost om = self.opaque_summaries.view_map();
        self.index_module_ports(modules);
        let ghost mut cur = no_facts();
        proof {
            assert(modules@.take(0) =~= Seq::<EirModule>::empty());
        }
        let mut i: usize = 0;
        while i < modules.len()
            invariant
                i <= modules.len(),
                om == self.opaque_summaries.view_map(),
                om == old(self).opaque_summaries.view_map(),
                ports_index_is(self.module_ports@, modules@),
                modules_facts(modules@, om, modules@.take(i as int), no_facts()) == Ok::<
                    FactsModel,
                    DiagnosticModel,
                >(cur),
                facts_are(self.objects@, self.drives@, self.reads@, cur),
            decreases modules.len() - i,
        {
            let module = &modules[i];
            self.module = module.name().to_owned();
            self.guard_stack = Vec::new();
            let ghost cx = FactsContext { module: module.name@, modules: modules@, om };
            proof {
                assert(modules@.take(i + 1).drop_last() =~= modules@.take(i as int));
                assert(modules@.take(i + 1).last() == modules@[i as int]);
                assert(self.in_context(cx, Seq::empty(), cur));
            }
            match self.collect_items(module.items(), Ghost(cx), Ghost(Seq::empty()), Ghost(cur)) {
                Err(d) => {
                    proof {
                        lemma_modules_facts_err(modules@, om, modules@, i + 1, no_facts());
                    }
                    return Err(d);
                },
                Ok(()) => {
                    proof {
                        cur = items_facts(cx, Seq::empty(), module.items@, cur)->Ok_0;
                    }
                },
            }
            i = i + 1;
        }
        proof {
            assert(modules@.take(modules@.len() as int) =~= modules@);
        }
        Ok(())
    }

    /// The facts of the modules, or the first diagnostic.
    pub fn collect(modules: &[EirModule], opaque_summaries: &OpaqueSummaryTable) -> (r: Result<
        EirDesignFacts,
        DriverDiagnostic,
    >)
        ensures
            match design_facts(modules@, opaque_summaries.view_map()) {
                Ok(m) => r matches Ok(f) && facts_are(f.objects@, f.drives@, f.reads@, m),
                Err(e) => r matches Err(d) && diag_model(d) == e,
            },
    {
        let mut collector = Self::new(opaque_summaries);
        match collector.collect_modules(modules) {
            Err(d) => Err(d),
            Ok(()) => Ok(EirDesignFacts::new(collector.objects, collector.drives, collector.reads)),
        }
    }
}

} // verus!