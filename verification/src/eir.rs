//! The elaborated design: modules with their ports and items, and the
//! objects, drives and reads gathered from them.
use crate::design::{EirConnection, EirParam, EirParamBind, EirReset};
use crate::expr::{EirBound, EirExpr, EirPlace};
use crate::facts::{EirOrigin, EirSignalActivity};
use crate::guard::EirGuard;
use std::sync::Arc;
use vstd::prelude::*;

verus! {

// ---------------------------------------------------------------------------
// Modules and ports
// ---------------------------------------------------------------------------

/// The direction of a port.
#[derive(Clone, Copy, Debug, PartialEq, Eq, Structural)]
pub enum EirDirection {
    In,
    InOut,
    Out,
}

/// A port of a module.
#[derive(Debug)]
pub struct EirPort {
    pub doc: Option<String>,
    pub direction: EirDirection,
    pub width: EirBound,
    pub name: String,
    pub origin: EirOrigin,
}

impl EirPort {
    /// A port with no documentation.
    pub fn new(direction: EirDirection, width: EirBound, name: &str, origin: EirOrigin) -> (r: Self)
        ensures
            r.doc is None,
            r.direction == direction,
            r.width == width,
            r.name@ == name@,
            r.origin == origin,
    {
        EirPort { doc: None, direction, width, name: name.to_owned(), origin }
    }

    /// The port with its documentation replaced.
    pub fn with_doc(self, doc: Option<String>) -> (r: Self)
        ensures
            r.doc == doc,
            r.direction == self.direction,
            r.width == self.width,
            r.name == self.name,
            r.origin == self.origin,
    {
        EirPort { doc, ..self }
    }

    /// The documentation of the port.
    pub fn doc(&self) -> (r: Option<&str>)
        ensures
            match self.doc {
                Some(d) => r matches Some(s) && s@ == d@,
                None => r is None,
            },
    {
        match &self.doc {
            Some(d) => Some(d.as_str()),
            None => None,
        }
    }

    /// The direction of the port.
    pub fn direction(&self) -> (r: EirDirection)
        ensures
            r == self.direction,
    {
        self.direction
    }

    /// The text of the port's width.
    pub fn width(&self) -> (r: &str)
        ensures
            r@ == self.width.source@,
    {
        self.width.source()
    }

    /// The width of the port.
    pub fn width_bound(&self) -> (r: &EirBound)
        ensures
            *r == self.width,
    {
        &self.width
    }

    /// The name of the port.
    pub fn name(&self) -> (r: &str)
        ensures
            r@ == self.name@,
    {
        self.name.as_str()
    }

    /// Where the port is declared.
    pub fn origin(&self) -> (r: &EirOrigin)
        ensures
            *r == self.origin,
    {
        &self.origin
    }
}

/// Whether a module is defined here or only declared.
#[derive(Clone, Copy, Debug, PartialEq, Eq, Structural)]
pub enum EirModuleKind {
    Defined,
    Extern,
}

/// A module: its parameters, ports and items.
#[derive(Debug)]
pub struct EirModule {
    pub doc: Option<String>,
    pub name: String,
    pub kind: EirModuleKind,
    pub params: Vec<EirParam>,
    pub ports: Vec<EirPort>,
    pub items: Vec<EirItem>,
}

impl EirModule {
    /// A defined module with no documentation.
    pub fn new(name: &str, params: Vec<EirParam>, ports: Vec<EirPort>, items: Vec<EirItem>) -> (r:
        Self)
        ensures
            r.doc is None,
            r.name@ == name@,
            r.kind == EirModuleKind::Defined,
            r.params == params,
            r.ports == ports,
            r.items == items,
    {
        EirModule { doc: None, name: name.to_owned(), kind: EirModuleKind::Defined, params, ports, items }
    }

    /// The module with its documentation replaced.
    pub fn with_doc(self, doc: Option<String>) -> (r: Self)
        ensures
            r.doc == doc,
            r.name == self.name,
            r.kind == self.kind,
            r.params == self.params,
            r.ports == self.ports,
            r.items == self.items,
    {
        EirModule { doc, ..self }
    }

    /// A module declared here and defined elsewhere: it has no items.
    pub fn new_extern(name: &str, params: Vec<EirParam>, ports: Vec<EirPort>) -> (r: Self)
        ensures
            r.doc is None,
            r.name@ == name@,
            r.kind == EirModuleKind::Extern,
            r.params == params,
            r.ports == ports,
            r.items@.len() == 0,
    {
        EirModule {
            doc: None,
            name: name.to_owned(),
            kind: EirModuleKind::Extern,
            params,
            ports,
            items: Vec::new(),
        }
    }

    /// The documentation of the module.
    pub fn doc(&self) -> (r: Option<&str>)
        ensures
            match self.doc {
                Some(d) => r matches Some(s) && s@ == d@,
                None => r is None,
            },
    {
        match &self.doc {
            Some(d) => Some(d.as_str()),
            None => None,
        }
    }

    /// The name of the module.
    pub fn name(&self) -> (r: &str)
        ensures
            r@ == self.name@,
    {
        self.name.as_str()
    }

    /// The module is only declared here.
    pub fn is_extern(&self) -> (r: bool)
        ensures
            r == (self.kind == EirModuleKind::Extern),
    {
        self.kind == EirModuleKind::Extern
    }

    /// The parameters of the module.
    pub fn params(&self) -> (r: &[EirParam])
        ensures
            r@ == self.params@,
    {
        self.params.as_slice()
    }

    /// The ports of the module.
    pub fn ports(&self) -> (r: &[EirPort])
        ensures
            r@ == self.ports@,
    {
        self.ports.as_slice()
    }

    /// The items of the module.
    pub fn items(&self) -> (r: &[EirItem])
        ensures
            r@ == self.items@,
    {
        self.items.as_slice()
    }
}

// ---------------------------------------------------------------------------
// Items
// ---------------------------------------------------------------------------

/// One item of a module body.
#[derive(Debug)]
pub enum EirItem {
    StaticParam { name: String, value: EirExpr, origin: EirOrigin },
    Signal { width: EirBound, name: String, activity: EirSignalActivity, origin: EirOrigin },
    Storage { width: EirBound, name: String, origin: EirOrigin },
    Drive { lhs: EirPlace, rhs: EirExpr, reads: Vec<EirExpr>, origin: EirOrigin },
    ClockedStorage {
        clock: EirExpr,
        target: EirPlace,
        reset: Option<Box<EirReset>>,
        next: EirExpr,
        reads: Vec<EirExpr>,
        origin: EirOrigin,
    },
    CellExpansion(EirCellExpansion),
    Instance(EirInstance),
    SymbolicStaticIf {
        cond: EirExpr,
        label: String,
        then_items: Vec<EirItem>,
        else_items: Vec<EirItem>,
        origin: EirOrigin,
    },
    SymbolicStaticFor {
        index: String,
        start: EirExpr,
        end: EirExpr,
        label: String,
        items: Vec<EirItem>,
        origin: EirOrigin,
    },
    InitialError { message: EirExpr, origin: EirOrigin },
}

/// The items a cell call expanded to, with the cell and instance names.
#[derive(Debug)]
pub struct EirCellExpansion {
    pub callable: String,
    pub instance: String,
    pub items: Vec<EirItem>,
}

impl EirCellExpansion {
    /// The expansion of `callable` as `instance`.
    pub fn new(callable: &str, instance: &str, items: Vec<EirItem>) -> (r: Self)
        ensures
            r.callable@ == callable@,
            r.instance@ == instance@,
            r.items == items,
    {
        EirCellExpansion { callable: callable.to_owned(), instance: instance.to_owned(), items }
    }

    /// The expanded cell.
    pub fn callable(&self) -> (r: &str)
        ensures
            r@ == self.callable@,
    {
        self.callable.as_str()
    }

    /// The instance name of the expansion.
    pub fn instance(&self) -> (r: &str)
        ensures
            r@ == self.instance@,
    {
        self.instance.as_str()
    }

    /// The expanded items.
    pub fn items(&self) -> (r: &[EirItem])
        ensures
            r@ == self.items@,
    {
        self.items.as_slice()
    }
}

/// An instance of another module.
#[derive(Debug)]
pub struct EirInstance {
    pub module: String,
    pub params: Vec<EirParamBind>,
    pub name: String,
    pub source_name: String,
    pub connections: Vec<EirConnection>,
    pub origin: EirOrigin,
}

impl EirInstance {
    /// An instance of `module` named `name`, written `source_name` in the
    /// source.
    pub fn new(
        module: &str,
        params: Vec<EirParamBind>,
        name: &str,
        source_name: &str,
        connections: Vec<EirConnection>,
        origin: EirOrigin,
    ) -> (r: Self)
        ensures
            r.module@ == module@,
            r.params == params,
            r.name@ == name@,
            r.source_name@ == source_name@,
            r.connections == connections,
            r.origin == origin,
    {
        EirInstance {
            module: module.to_owned(),
            params,
            name: name.to_owned(),
            source_name: source_name.to_owned(),
            connections,
            origin,
        }
    }

    /// The instantiated module.
    pub fn module(&self) -> (r: &str)
        ensures
            r@ == self.module@,
    {
        self.module.as_str()
    }

    /// The parameter bindings.
    pub fn params(&self) -> (r: &[EirParamBind])
        ensures
            r@ == self.params@,
    {
        self.params.as_slice()
    }

    /// The instance name.
    pub fn name(&self) -> (r: &str)
        ensures
            r@ == self.name@,
    {
        self.name.as_str()
    }

    /// The instance name as written in the source.
    pub fn source_name(&self) -> (r: &str)
        ensures
            r@ == self.source_name@,
    {
        self.source_name.as_str()
    }

    /// The port connections.
    pub fn connections(&self) -> (r: &[EirConnection])
        ensures
            r@ == self.connections@,
    {
        self.connections.as_slice()
    }

    /// Where the instance is written.
    pub fn origin(&self) -> (r: &EirOrigin)
        ensures
            *r == self.origin,
    {
        &self.origin
    }
}

// ---------------------------------------------------------------------------
// Objects, drives and reads
// ---------------------------------------------------------------------------

/// Whether an object is a signal or storage.
#[derive(Clone, Copy, Debug, PartialEq, Eq, Structural)]
pub enum EirObjectKind {
    Signal,
    Storage,
}

/// A signal or storage object declared in a module.
#[derive(Debug)]
pub struct EirObject {
    pub module: String,
    pub name: String,
    pub width: EirBound,
    pub kind: EirObjectKind,
    pub activity: EirSignalActivity,
    pub origin: EirOrigin,
}

/// The parts of an object.
pub struct EirObjectInput {
    pub module: String,
    pub name: String,
    pub width: EirBound,
    pub kind: EirObjectKind,
    pub activity: EirSignalActivity,
    pub origin: EirOrigin,
}

impl EirObject {
    /// The object with the given parts.
    pub fn new(input: EirObjectInput) -> (r: Self)
        ensures
            r.module == input.module,
            r.name == input.name,
            r.width == input.width,
            r.kind == input.kind,
            r.activity == input.activity,
            r.origin == input.origin,
    {
        EirObject {
            module: input.module,
            name: input.name,
            width: input.width,
            kind: input.kind,
            activity: input.activity,
            origin: input.origin,
        }
    }

    /// The module declaring the object.
    pub fn module(&self) -> (r: &str)
        ensures
            r@ == self.module@,
    {
        self.module.as_str()
    }

    /// The name of the object.
    pub fn name(&self) -> (r: &str)
        ensures
            r@ == self.name@,
    {
        self.name.as_str()
    }

    /// The width of the object.
    pub fn width_bound(&self) -> (r: &EirBound)
        ensures
            *r == self.width,
    {
        &self.width
    }

    /// Whether it is a signal or storage.
    pub fn kind(&self) -> (r: EirObjectKind)
        ensures
            r == self.kind,
    {
        self.kind
    }

    /// Whether the signal must be driven.
    pub fn activity(&self) -> (r: EirSignalActivity)
        ensures
            r == self.activity,
    {
        self.activity
    }

    /// Where the object is declared.
    pub fn origin(&self) -> (r: &EirOrigin)
        ensures
            *r == self.origin,
    {
        &self.origin
    }
}

/// Whether a drive assigns continuously or sets the next value of storage.
#[derive(Clone, Copy, Debug, PartialEq, Eq, Structural)]
pub enum EirDriveKind {
    Continuous,
    Next,
}

/// One drive of a place in a module.
#[derive(Debug)]
pub struct EirDrive {
    pub module: String,
    pub target: EirPlace,
    pub value: Option<EirExpr>,
    pub kind: EirDriveKind,
    pub guard: EirGuard,
    pub origin: EirOrigin,
}

/// The parts of a drive.
pub struct EirDriveInput {
    pub module: String,
    pub target: EirPlace,
    pub kind: EirDriveKind,
    pub value: Option<EirExpr>,
    pub guard: EirGuard,
    pub origin: EirOrigin,
}

impl EirDrive {
    /// The drive with the given parts.
    pub fn new(input: EirDriveInput) -> (r: Self)
        ensures
            r.module == input.module,
            r.target == input.target,
            r.value == input.value,
            r.kind == input.kind,
            r.guard == input.guard,
            r.origin == input.origin,
    {
        EirDrive {
            module: input.module,
            target: input.target,
            value: input.value,
            kind: input.kind,
            guard: input.guard,
            origin: input.origin,
        }
    }

    /// The module of the drive.
    pub fn module(&self) -> (r: &str)
        ensures
            r@ == self.module@,
    {
        self.module.as_str()
    }

    /// The driven place.
    pub fn target_place(&self) -> (r: &EirPlace)
        ensures
            *r == self.target,
    {
        &self.target
    }

    /// The driven value, where there is one.
    pub fn value(&self) -> (r: Option<&EirExpr>)
        ensures
            match self.value {
                Some(v) => r == Some(&v),
                None => r is None,
            },
    {
        match &self.value {
            Some(v) => Some(v),
            None => None,
        }
    }

    /// Whether the drive is continuous or sets a next value.
    pub fn kind(&self) -> (r: EirDriveKind)
        ensures
            r == self.kind,
    {
        self.kind
    }

    /// The scopes the drive sits in.
    pub fn guard(&self) -> (r: &EirGuard)
        ensures
            *r == self.guard,
    {
        &self.guard
    }

    /// Where the drive is written.
    pub fn origin(&self) -> (r: &EirOrigin)
        ensures
            *r == self.origin,
    {
        &self.origin
    }
}

/// One read of a place in a module.
#[derive(Debug)]
pub struct EirRead {
    pub module: String,
    pub source: EirPlace,
    pub guard: EirGuard,
    pub origin: EirOrigin,
}

impl EirRead {
    /// A read in `module` of `source`.
    pub fn new(module: &str, source: EirPlace, guard: EirGuard, origin: EirOrigin) -> (r: Self)
        ensures
            r.module@ == module@,
            r.source == source,
            r.guard == guard,
            r.origin == origin,
    {
        EirRead { module: module.to_owned(), source, guard, origin }
    }

    /// The module of the read.
    pub fn module(&self) -> (r: &str)
        ensures
            r@ == self.module@,
    {
        self.module.as_str()
    }

    /// The read place.
    pub fn source_place(&self) -> (r: &EirPlace)
        ensures
            *r == self.source,
    {
        &self.source
    }

    /// The scopes the read sits in.
    pub fn guard(&self) -> (r: &EirGuard)
        ensures
            *r == self.guard,
    {
        &self.guard
    }

    /// Where the read is written.
    pub fn origin(&self) -> (r: &EirOrigin)
        ensures
            *r == self.origin,
    {
        &self.origin
    }
}

// ---------------------------------------------------------------------------
// Designs
// ---------------------------------------------------------------------------

/// The modules of a design as elaborated.
pub struct EirRawDesign {
    pub modules: Vec<EirModule>,
}

impl EirRawDesign {
    /// A design of the given modules.
    pub fn new(modules: Vec<EirModule>) -> (r: Self)
        ensures
            r.modules == modules,
    {
        EirRawDesign { modules }
    }

    /// The modules.
    pub fn modules(&self) -> (r: &[EirModule])
        ensures
            r@ == self.modules@,
    {
        self.modules.as_slice()
    }
}

/// The objects, drives and reads gathered from a design.
pub struct EirDesignFacts {
    pub objects: Vec<EirObject>,
    pub drives: Vec<EirDrive>,
    pub reads: Vec<EirRead>,
}

impl EirDesignFacts {
    /// The given facts.
    pub fn new(objects: Vec<EirObject>, drives: Vec<EirDrive>, reads: Vec<EirRead>) -> (r: Self)
        ensures
            r.objects == objects,
            r.drives == drives,
            r.reads == reads,
    {
        EirDesignFacts { objects, drives, reads }
    }

    /// The declared objects.
    pub fn objects(&self) -> (r: &[EirObject])
        ensures
            r@ == self.objects@,
    {
        self.objects.as_slice()
    }

    /// The drives.
    pub fn drives(&self) -> (r: &[EirDrive])
        ensures
            r@ == self.drives@,
    {
        self.drives.as_slice()
    }

    /// The reads.
    pub fn reads(&self) -> (r: &[EirRead])
        ensures
            r@ == self.reads@,
    {
        self.reads.as_slice()
    }
}

/// A design together with the facts gathered from it.
pub struct EirDesign {
    pub raw: Arc<EirRawDesign>,
    pub facts: Arc<EirDesignFacts>,
}

impl EirDesign {
    /// The design with its facts.
    pub fn from_parts(raw: Arc<EirRawDesign>, facts: Arc<EirDesignFacts>) -> (r: Self)
        ensures
            r.raw == raw,
            r.facts == facts,
    {
        EirDesign { raw, facts }
    }

    /// The modules.
    pub fn modules(&self) -> (r: &[EirModule])
        ensures
            r@ == self.raw.modules@,
    {
        self.raw.modules()
    }

    /// The declared objects.
    pub fn objects(&self) -> (r: &[EirObject])
        ensures
            r@ == self.facts.objects@,
    {
        self.facts.objects()
    }

    /// The drives.
    pub fn drives(&self) -> (r: &[EirDrive])
        ensures
            r@ == self.facts.drives@,
    {
        self.facts.drives()
    }

    /// The reads.
    pub fn reads(&self) -> (r: &[EirRead])
        ensures
            r@ == self.facts.reads@,
    {
        self.facts.reads()
    }
}

/// Puts a design together from its modules and their facts.
pub struct EirDesignComposer;

impl EirDesignComposer {
    /// The design of the modules with the given facts.
    pub fn compose(raw: Arc<EirRawDesign>, facts: Arc<EirDesignFacts>) -> (r: EirDesign)
        ensures
            r.raw == raw,
            r.facts == facts,
    {
        EirDesign::from_parts(raw, facts)
    }
}

} // verus!
