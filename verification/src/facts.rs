//! The facts the driver checks work on: where each drive, read and created
//! object comes from, what it targets, and under which guard.
use crate::expr::EirExpr;
use crate::guard::{EirGuard, Span};
use crate::place::{DriverObjectTable, DriverPlace, ObjectId};
use crate::summary::DriverCellSummary;
use vstd::prelude::*;

verus! {

/// One level of expansion: the cell instantiated, the instance name, and
/// where it was instantiated.
#[derive(Debug)]
pub struct EirExpansion {
    pub callable: String,
    pub instance: String,
    pub span: Span,
}

impl EirExpansion {
    /// An expansion of `callable` as `instance` at `span`.
    pub fn new(callable: &str, instance: &str, span: Span) -> (r: Self)
        ensures
            r.callable@ == callable@,
            r.instance@ == instance@,
            r.span == span,
    {
        EirExpansion { callable: callable.to_owned(), instance: instance.to_owned(), span }
    }

    /// The cell instantiated.
    pub fn callable(&self) -> (r: &str)
        ensures
            r@ == self.callable@,
    {
        self.callable.as_str()
    }

    /// The instance name.
    pub fn instance(&self) -> (r: &str)
        ensures
            r@ == self.instance@,
    {
        self.instance.as_str()
    }

    /// Where the cell was instantiated.
    pub fn span(&self) -> (r: Span)
        ensures
            r == self.span,
    {
        self.span
    }

    /// A copy of the expansion.
    pub fn copy(&self) -> (r: Self)
        ensures
            same_expansion(r, *self),
    {
        EirExpansion { callable: self.callable.clone(), instance: self.instance.clone(), span: self.span }
    }
}

/// Two expansions name the same cell and instance at the same place.
pub open spec fn same_expansion(a: EirExpansion, b: EirExpansion) -> bool {
    a.callable@ == b.callable@ && a.instance@ == b.instance@ && a.span == b.span
}

/// Two origins are at the same place under the same expansions.
pub open spec fn same_origin(a: EirOrigin, b: EirOrigin) -> bool {
    &&& a.span == b.span
    &&& a.expansion_stack@.len() == b.expansion_stack@.len()
    &&& forall|i: int|
        0 <= i < a.expansion_stack@.len() ==> same_expansion(
            #[trigger] a.expansion_stack@[i],
            b.expansion_stack@[i],
        )
}

/// Where an object of the design comes from: its place in the source and
/// the expansions that produced it, outermost first.
#[derive(Debug)]
pub struct EirOrigin {
    pub span: Span,
    pub expansion_stack: Vec<EirExpansion>,
}

impl EirOrigin {
    /// An origin at `span` under the given expansions.
    pub fn new(span: Span, expansion_stack: Vec<EirExpansion>) -> (r: Self)
        ensures
            r.span == span,
            r.expansion_stack == expansion_stack,
    {
        EirOrigin { span, expansion_stack }
    }

    /// A copy of the origin.
    pub fn copy(&self) -> (r: Self)
        ensures
            same_origin(r, *self),
    {
        let mut stack: Vec<EirExpansion> = Vec::new();
        let mut i: usize = 0;
        while i < self.expansion_stack.len()
            invariant
                i <= self.expansion_stack.len(),
                stack@.len() == i,
                forall|j: int|
                    0 <= j < i ==> same_expansion(#[trigger] stack@[j], self.expansion_stack@[j]),
            decreases self.expansion_stack.len() - i,
        {
            stack.push(self.expansion_stack[i].copy());
            i = i + 1;
        }
        EirOrigin { span: self.span, expansion_stack: stack }
    }

    /// The place in the source.
    pub fn span(&self) -> (r: Span)
        ensures
            r == self.span,
    {
        self.span
    }

    /// The expansions, outermost first.
    pub fn expansion_stack(&self) -> (r: &[EirExpansion])
        ensures
            r@ == self.expansion_stack@,
    {
        self.expansion_stack.as_slice()
    }
}

/// What a drive does to its target: drive it continuously, or give the
/// storage object its next value.
#[derive(Debug)]
pub enum DriveEffect {
    Continuous,
    Next { storage_target: Box<DriverPlace> },
}

/// One drive of a place.
#[derive(Debug)]
pub struct DriveFact {
    pub module: String,
    pub target: DriverPlace,
    pub effect: DriveEffect,
    pub value: Option<EirExpr>,
    pub guard: EirGuard,
    pub origin: EirOrigin,
}

impl DriveFact {
    /// A drive in `module` of `target` with the given effect, value, guard
    /// and origin.
    pub fn new(
        module: &str,
        target: DriverPlace,
        effect: DriveEffect,
        value: Option<EirExpr>,
        guard: EirGuard,
        origin: EirOrigin,
    ) -> (r: Self)
        ensures
            r.module@ == module@,
            r.target == target,
            r.effect == effect,
            r.value == value,
            r.guard == guard,
            r.origin == origin,
    {
        DriveFact { module: module.to_owned(), target, effect, value, guard, origin }
    }

    /// The module of the drive.
    pub fn module(&self) -> (r: &str)
        ensures
            r@ == self.module@,
    {
        self.module.as_str()
    }

    /// The place driven.
    pub fn target_place(&self) -> (r: &DriverPlace)
        ensures
            *r == self.target,
    {
        &self.target
    }

    /// What the drive does.
    pub fn effect(&self) -> (r: &DriveEffect)
        ensures
            *r == self.effect,
    {
        &self.effect
    }

    /// The value driven, if known.
    pub fn value(&self) -> (r: Option<&EirExpr>)
        ensures
            match self.value {
                Some(v) => r == Some(&v),
                None => r is None,
            },
    {
        match &self.value {
            Some(v) => Some(v),
            None => None,
        }
    }

    /// The guard of the drive.
    pub fn guard(&self) -> (r: &EirGuard)
        ensures
            *r == self.guard,
    {
        &self.guard
    }

    /// Where the drive comes from.
    pub fn origin(&self) -> (r: &EirOrigin)
        ensures
            *r == self.origin,
    {
        &self.origin
    }
}

/// One read of a place.
#[derive(Debug)]
pub struct ReadFact {
    pub module: String,
    pub source: DriverPlace,
    pub guard: EirGuard,
    pub origin: EirOrigin,
}

impl ReadFact {
    /// A read in `module` of `source` under a guard.
    pub fn new(module: &str, source: DriverPlace, guard: EirGuard, origin: EirOrigin) -> (r: Self)
        ensures
            r.module@ == module@,
            r.source == source,
            r.guard == guard,
            r.origin == origin,
    {
        ReadFact { module: module.to_owned(), source, guard, origin }
    }

    /// The module of the read.
    pub fn module(&self) -> (r: &str)
        ensures
            r@ == self.module@,
    {
        self.module.as_str()
    }

    /// The place read.
    pub fn source_place(&self) -> (r: &DriverPlace)
        ensures
            *r == self.source,
    {
        &self.source
    }

    /// The guard of the read.
    pub fn guard(&self) -> (r: &EirGuard)
        ensures
            *r == self.guard,
    {
        &self.guard
    }

    /// Where the read comes from.
    pub fn origin(&self) -> (r: &EirOrigin)
        ensures
            *r == self.origin,
    {
        &self.origin
    }
}

/// The kind of a created object.
#[derive(Clone, Copy, Debug, PartialEq, Eq, Structural)]
pub enum CreateKind {
    Signal,
    Storage,
}

/// Whether a signal must be driven.
#[derive(Clone, Copy, Debug, PartialEq, Eq, Structural)]
pub enum EirSignalActivity {
    Required,
    Optional,
}

/// One created object: a signal or a storage object.
#[derive(Debug)]
pub struct CreateFact {
    pub module: String,
    pub name: String,
    pub object_id: ObjectId,
    pub kind: CreateKind,
    pub activity: EirSignalActivity,
    pub origin: EirOrigin,
}

impl CreateFact {
    /// An object created in `module` under `name`.
    pub fn new(
        module: &str,
        name: &str,
        object_id: ObjectId,
        kind: CreateKind,
        activity: EirSignalActivity,
        origin: EirOrigin,
    ) -> (r: Self)
        ensures
            r.module@ == module@,
            r.name@ == name@,
            r.object_id == object_id,
            r.kind == kind,
            r.activity == activity,
            r.origin == origin,
    {
        CreateFact {
            module: module.to_owned(),
            name: name.to_owned(),
            object_id,
            kind,
            activity,
            origin,
        }
    }

    /// The module of the object.
    pub fn module(&self) -> (r: &str)
        ensures
            r@ == self.module@,
    {
        self.module.as_str()
    }

    /// The name of the object.
    pub fn name(&self) -> (r: &str)
        ensures
            r@ == self.name@,
    {
        self.name.as_str()
    }

    /// The kind of the object.
    pub fn kind(&self) -> (r: CreateKind)
        ensures
            r == self.kind,
    {
        self.kind
    }

    /// The identity of the object.
    pub fn object_id(&self) -> (r: ObjectId)
        ensures
            r == self.object_id,
    {
        self.object_id
    }

    /// Whether the signal must be driven.
    pub fn activity(&self) -> (r: EirSignalActivity)
        ensures
            r == self.activity,
    {
        self.activity
    }

    /// Where the object comes from.
    pub fn origin(&self) -> (r: &EirOrigin)
        ensures
            *r == self.origin,
    {
        &self.origin
    }
}

/// The facts of a design: its objects, drives, reads and created objects.
pub struct DriverFacts {
    pub objects: DriverObjectTable,
    pub drives: Vec<DriveFact>,
    pub reads: Vec<ReadFact>,
    pub creates: Vec<CreateFact>,
    pub summary_cells: Vec<DriverCellSummary>,
}

impl DriverFacts {
    /// The facts gathered from a design.
    pub fn new(
        objects: DriverObjectTable,
        drives: Vec<DriveFact>,
        reads: Vec<ReadFact>,
        creates: Vec<CreateFact>,
        cell_summaries: Vec<DriverCellSummary>,
    ) -> (r: Self)
        ensures
            r.objects == objects,
            r.drives == drives,
            r.reads == reads,
            r.creates == creates,
            r.summary_cells == cell_summaries,
    {
        DriverFacts { objects, drives, reads, creates, summary_cells: cell_summaries }
    }

    /// The summaries of the expanded cell instances.
    pub fn summary_cells(&self) -> (r: &[DriverCellSummary])
        ensures
            r@ == self.summary_cells@,
    {
        self.summary_cells.as_slice()
    }

    /// The objects of the design.
    pub fn objects(&self) -> (r: &DriverObjectTable)
        ensures
            *r == self.objects,
    {
        &self.objects
    }

    /// The drives.
    pub fn drives(&self) -> (r: &[DriveFact])
        ensures
            r@ == self.drives@,
    {
        self.drives.as_slice()
    }

    /// The reads.
    pub fn reads(&self) -> (r: &[ReadFact])
        ensures
            r@ == self.reads@,
    {
        self.reads.as_slice()
    }

    /// The created objects.
    pub fn creates(&self) -> (r: &[CreateFact])
        ensures
            r@ == self.creates@,
    {
        self.creates.as_slice()
    }
}

} // verus!
