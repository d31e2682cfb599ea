//! Rejects a design holding an expression the hardware checks cannot take,
//! before any fact is gathered from it.
use crate::design::EirReset;
use crate::drc::{DriverDiagnostic, DriverError};
use crate::eir::{EirItem, EirModule};
use crate::expr::{EirBound, EirExpr, EirPlace, EirSelectArm};
use crate::facts::EirOrigin;
use crate::guard::Span;
use vstd::prelude::*;

verus! {

// ---------------------------------------------------------------------------
// What is supported
// ---------------------------------------------------------------------------

/// The expression holds no unsupported part, its bounds included.
pub open spec fn expr_supported(e: EirExpr) -> bool
    decreases e,
{
    match e {
        EirExpr::Unsupported { .. } => false,
        EirExpr::Unary { expr, .. } => expr_supported(*expr),
        EirExpr::Binary { left, right, .. } => expr_supported(*left) && expr_supported(*right),
        EirExpr::Mux { cond, then_value, else_value } => expr_supported(*cond) && expr_supported(
            *then_value,
        ) && expr_supported(*else_value),
        EirExpr::Select { arms, default, .. } => (forall|i: int|
            0 <= i < arms.len() ==> expr_supported(#[trigger] arms@[i].guard) && expr_supported(
                arms@[i].value,
            )) && expr_supported(*default),
        EirExpr::Concat(parts) => forall|i: int| 0 <= i < parts.len() ==> expr_supported(#[trigger] parts@[i]),
        EirExpr::Slice { value, high, low } => expr_supported(*value) && expr_supported(*high.expr)
            && expr_supported(*low.expr),
        EirExpr::IndexedPartSelect { value, index, width } => expr_supported(*value) && expr_supported(
            *index,
        ) && expr_supported(*width.expr),
        EirExpr::Index { value, index } => expr_supported(*value) && expr_supported(*index),
        EirExpr::Call { args, .. } => forall|i: int| 0 <= i < args.len() ==> expr_supported(#[trigger] args@[i]),
        _ => true,
    }
}

/// The place holds no unsupported index or bound.
pub open spec fn place_supported(p: EirPlace) -> bool
    decreases p,
{
    match p {
        EirPlace::Ident(_) => true,
        EirPlace::Slice { base, high, low } => place_supported(*base) && expr_supported(*high.expr)
            && expr_supported(*low.expr),
        EirPlace::IndexedPartSelect { base, index, width } => place_supported(*base) && expr_supported(
            index,
        ) && expr_supported(*width.expr),
        EirPlace::Index { base, index } => place_supported(*base) && expr_supported(index),
    }
}

/// Every expression of the list is supported.
pub open spec fn exprs_supported(es: Seq<EirExpr>) -> bool {
    forall|i: int| 0 <= i < es.len() ==> expr_supported(#[trigger] es[i])
}

/// The reset, if any, has a supported condition and value.
pub open spec fn reset_supported(reset: Option<Box<EirReset>>) -> bool {
    match reset {
        Some(r) => expr_supported(r.condition) && expr_supported(r.value),
        None => true,
    }
}

/// Where the first unsupported expression of an item is reported: at the
/// origin of the innermost item holding it.
pub open spec fn item_error(item: EirItem) -> Option<Span>
    decreases item, 1int,
{
    match item {
        EirItem::StaticParam { value, origin, .. } => if expr_supported(value) {
            None
        } else {
            Some(origin.span)
        },
        EirItem::Signal { .. } => None,
        EirItem::Storage { .. } => None,
        EirItem::Drive { lhs, rhs, reads, origin } => if place_supported(lhs) && expr_supported(rhs)
            && exprs_supported(reads@) {
            None
        } else {
            Some(origin.span)
        },
        EirItem::ClockedStorage { clock, target, reset, next, reads, origin } => if expr_supported(
            clock,
        ) && place_supported(target) && reset_supported(reset) && expr_supported(next)
            && exprs_supported(reads@) {
            None
        } else {
            Some(origin.span)
        },
        EirItem::CellExpansion(expansion) => items_error(expansion.items@),
        EirItem::Instance(instance) => if forall|i: int|
            0 <= i < instance.connections.len() ==> expr_supported(
                #[trigger] instance.connections@[i].actual,
            ) {
            None
        } else {
            Some(instance.origin.span)
        },
        EirItem::SymbolicStaticIf { cond, then_items, else_items, origin, .. } => if !expr_supported(
            cond,
        ) {
            Some(origin.span)
        } else {
            match items_error(then_items@) {
                Some(s) => Some(s),
                None => items_error(else_items@),
            }
        },
        EirItem::SymbolicStaticFor { start, end, items, origin, .. } => if !expr_supported(start)
            || !expr_supported(end) {
            Some(origin.span)
        } else {
            items_error(items@)
        },
        EirItem::InitialError { message, origin } => if expr_supported(message) {
            None
        } else {
            Some(origin.span)
        },
    }
}

/// Where the first unsupported expression of a list of items is reported.
pub open spec fn items_error(items: Seq<EirItem>) -> Option<Span>
    decreases items, 0int,
{
    if items.len() == 0 {
        None
    } else {
        match item_error(items[0]) {
            Some(s) => Some(s),
            None => items_error(items.drop_first()),
        }
    }
}

/// Where the first unsupported expression of a design is reported, module
/// by module.
pub open spec fn modules_error(modules: Seq<EirModule>) -> Option<Span>
    decreases modules.len(),
{
    if modules.len() == 0 {
        None
    } else {
        match items_error(modules[0].items@) {
            Some(s) => Some(s),
            None => modules_error(modules.drop_first()),
        }
    }
}

// ---------------------------------------------------------------------------
// The validator
// ---------------------------------------------------------------------------

/// The diagnostic for an unsupported expression at a place in the source.
fn unsupported_at(span: Span) -> (r: DriverDiagnostic)
    ensures
        r.kind == DriverError::UnsupportedHardwareValueExpression,
        r.span == span,
        r.related@.len() == 0,
{
    DriverDiagnostic::driver_error(DriverError::UnsupportedHardwareValueExpression, span)
}

/// Checks the expressions of a design.
pub struct EirValidator<'a> {
    pub modules: &'a [EirModule],
}

impl<'a> EirValidator<'a> {
    /// A validator of the given modules.
    pub fn new(modules: &'a [EirModule]) -> (r: Self)
        ensures
            r.modules == modules,
    {
        EirValidator { modules }
    }

    /// Nothing when every expression of every module is supported; else the
    /// diagnostic for the first unsupported one.
    pub fn validate(&self) -> (r: Result<(), DriverDiagnostic>)
        ensures
            match modules_error(self.modules@) {
                Some(s) => r matches Err(d) && d.kind == DriverError::UnsupportedHardwareValueExpression
                    && d.span == s,
                None => r is Ok,
            },
    {
        let modules = self.modules;
        let mut i: usize = 0;
        proof {
            assert(modules@.skip(0) =~= modules@);
        }
        while i < modules.len()
            invariant
                i <= modules.len(),
                modules == self.modules,
                modules_error(modules@) == modules_error(modules@.skip(i as int)),
            decreases modules.len() - i,
        {
            proof {
                assert(modules@.skip(i as int)[0] == modules@[i as int]);
                assert(modules@.skip(i as int).drop_first() =~= modules@.skip(i + 1));
            }
            self.check_items(modules[i].items())?;
            i = i + 1;
        }
        Ok(())
    }

    /// Checks a list of items in order.
    pub fn check_items(&self, items: &[EirItem]) -> (r: Result<(), DriverDiagnostic>)
        ensures
            match items_error(items@) {
                Some(s) => r matches Err(d) && d.kind == DriverError::UnsupportedHardwareValueExpression
                    && d.span == s,
                None => r is Ok,
            },
        decreases items@, 0int,
    {
        let mut i: usize = 0;
        proof {
            assert(items@.skip(0) =~= items@);
        }
        while i < items.len()
            invariant
                i <= items.len(),
                items_error(items@) == items_error(items@.skip(i as int)),
            decreases items.len() - i,
        {
            proof {
                assert(items@.skip(i as int)[0] == items@[i as int]);
                assert(items@.skip(i as int).drop_first() =~= items@.skip(i + 1));
                assert(decreases_to!(items@ => items@[i as int]));
            }
            self.check_item(&items[i])?;
            i = i + 1;
        }
        Ok(())
    }

    /// Checks one item, and the items nested in it.
    pub fn check_item(&self, item: &EirItem) -> (r: Result<(), DriverDiagnostic>)
        ensures
            match item_error(*item) {
                Some(s) => r matches Err(d) && d.kind == DriverError::UnsupportedHardwareValueExpression
                    && d.span == s,
                None => r is Ok,
            },
        decreases *item, 1int,
    {
        match item {
            EirItem::StaticParam { value, origin, .. } => self.check_expr(value, origin),
            EirItem::Signal { .. } => Ok(()),
            EirItem::Storage { .. } => Ok(()),
            EirItem::Drive { lhs, rhs, reads, origin } => {
                self.check_place(lhs, origin)?;
                self.check_expr(rhs, origin)?;
                self.check_exprs(reads.as_slice(), origin)
            },
            EirItem::ClockedStorage { clock, target, reset, next, reads, origin } => {
                self.check_expr(clock, origin)?;
                self.check_place(target, origin)?;
                self.check_reset(reset, origin)?;
                self.check_expr(next, origin)?;
                self.check_exprs(reads.as_slice(), origin)
            },
            EirItem::CellExpansion(expansion) => {
                proof {
                    assert(decreases_to!(*item => expansion.items@));
                }
                self.check_items(expansion.items())
            },
            EirItem::Instance(instance) => {
                let connections = instance.connections();
                let mut i: usize = 0;
                proof {
                    assert(item_error(*item) == if forall|j: int|
                        0 <= j < instance.connections.len() ==> expr_supported(
                            #[trigger] instance.connections@[j].actual,
                        ) {
                        None
                    } else {
                        Some(instance.origin.span)
                    });
                }
                while i < connections.len()
                    invariant
                        i <= connections.len(),
                        connections@ == instance.connections@,
                        item_error(*item) == if forall|j: int|
                            0 <= j < instance.connections.len() ==> expr_supported(
                                #[trigger] instance.connections@[j].actual,
                            ) {
                            None
                        } else {
                            Some(instance.origin.span)
                        },
                        forall|j: int| 0 <= j < i ==> expr_supported(#[trigger] connections@[j].actual),
                    decreases connections.len() - i,
                {
                    match self.check_expr(connections[i].actual(), instance.origin()) {
                        Err(d) => {
                            proof {
                                assert(!expr_supported(instance.connections@[i as int].actual));
                                assert(!(forall|j: int|
                                    0 <= j < instance.connections.len() ==> expr_supported(
                                        #[trigger] instance.connections@[j].actual,
                                    )));
                                assert(item_error(*item) == Some(instance.origin.span));
                            }
                            return Err(d);
                        },
                        Ok(()) => {},
                    }
                    i = i + 1;
                }
                Ok(())
            },
            EirItem::SymbolicStaticIf { cond, then_items, else_items, origin, .. } => {
                self.check_expr(cond, origin)?;
                proof {
                    assert(decreases_to!(*item => then_items@));
                    assert(decreases_to!(*item => else_items@));
                }
                self.check_items(then_items.as_slice())?;
                self.check_items(else_items.as_slice())
            },
            EirItem::SymbolicStaticFor { start, end, items, origin, .. } => {
                self.check_expr(start, origin)?;
                self.check_expr(end, origin)?;
                proof {
                    assert(decreases_to!(*item => items@));
                }
                self.check_items(items.as_slice())
            },
            EirItem::InitialError { message, origin } => self.check_expr(message, origin),
        }
    }

    /// Checks the condition and value of a reset, if any.
    pub fn check_reset(&self, reset: &Option<Box<EirReset>>, origin: &EirOrigin) -> (r: Result<
        (),
        DriverDiagnostic,
    >)
        ensures
            if reset_supported(*reset) {
                r is Ok
            } else {
                r matches Err(d) && d.kind == DriverError::UnsupportedHardwareValueExpression && d.span
                    == origin.span
            },
    {
        match reset {
            Some(reset) => {
                self.check_expr(reset.condition(), origin)?;
                self.check_expr(reset.value(), origin)
            },
            None => Ok(()),
        }
    }

    /// Checks the indexes and bounds of a place.
    pub fn check_place(&self, place: &EirPlace, origin: &EirOrigin) -> (r: Result<(), DriverDiagnostic>)
        ensures
            if place_supported(*place) {
                r is Ok
            } else {
                r matches Err(d) && d.kind == DriverError::UnsupportedHardwareValueExpression && d.span
                    == origin.span
            },
        decreases place,
    {
        match place {
            EirPlace::Ident(_) => Ok(()),
            EirPlace::Slice { base, high, low } => {
                self.check_place(base, origin)?;
                self.check_expr(high.expr(), origin)?;
                self.check_expr(low.expr(), origin)
            },
            EirPlace::IndexedPartSelect { base, index, width } => {
                self.check_place(base, origin)?;
                self.check_expr(index, origin)?;
                self.check_expr(width.expr(), origin)
            },
            EirPlace::Index { base, index } => {
                self.check_place(base, origin)?;
                self.check_expr(index, origin)
            },
        }
    }

    /// Checks each expression of a list.
    pub fn check_exprs(&self, exprs: &[EirExpr], origin: &EirOrigin) -> (r: Result<(), DriverDiagnostic>)
        ensures
            if exprs_supported(exprs@) {
                r is Ok
            } else {
                r matches Err(d) && d.kind == DriverError::UnsupportedHardwareValueExpression && d.span
                    == origin.span
            },
        decreases exprs@,
    {
        let mut i: usize = 0;
        while i < exprs.len()
            invariant
                i <= exprs.len(),
                forall|j: int| 0 <= j < i ==> expr_supported(#[trigger] exprs@[j]),
            decreases exprs.len() - i,
        {
            proof {
                assert(decreases_to!(exprs@ => exprs@[i as int]));
            }
            self.check_expr(&exprs[i], origin)?;
            i = i + 1;
        }
        Ok(())
    }

    /// Checks that an expression holds no unsupported part.
    pub fn check_expr(&self, expr: &EirExpr, origin: &EirOrigin) -> (r: Result<(), DriverDiagnostic>)
        ensures
            if expr_supported(*expr) {
                r is Ok
            } else {
                r matches Err(d) && d.kind == DriverError::UnsupportedHardwareValueExpression && d.span
                    == origin.span
            },
        decreases expr,
    {
        match expr {
            EirExpr::Unsupported { .. } => Err(unsupported_at(origin.span())),
            EirExpr::Unary { expr: inner, .. } => self.check_expr(inner, origin),
            EirExpr::Binary { left, right, .. } => {
                self.check_expr(left, origin)?;
                self.check_expr(right, origin)
            },
            EirExpr::Mux { cond, then_value, else_value } => {
                self.check_expr(cond, origin)?;
                self.check_expr(then_value, origin)?;
                self.check_expr(else_value, origin)
            },
            EirExpr::Select { arms, default, .. } => {
                self.check_arms(arms, origin)?;
                self.check_expr(default, origin)
            },
            EirExpr::Concat(parts) => {
                proof {
                    assert(decreases_to!(*expr => parts@));
                }
                self.check_exprs(parts.as_slice(), origin)
            },
            EirExpr::Slice { value, high, low } => {
                self.check_expr(value, origin)?;
                self.check_expr(high.expr(), origin)?;
                self.check_expr(low.expr(), origin)
            },
            EirExpr::IndexedPartSelect { value, index, width } => {
                self.check_expr(value, origin)?;
                self.check_expr(index, origin)?;
                self.check_expr(width.expr(), origin)
            },
            EirExpr::Index { value, index } => {
                self.check_expr(value, origin)?;
                self.check_expr(index, origin)
            },
            EirExpr::Call { args, .. } => {
                proof {
                    assert(decreases_to!(*expr => args@));
                }
                self.check_exprs(args.as_slice(), origin)
            },
            _ => Ok(()),
        }
    }

    /// Checks the guard and value of each select arm.
    pub fn check_arms(&self, arms: &Vec<EirSelectArm>, origin: &EirOrigin) -> (r: Result<
        (),
        DriverDiagnostic,
    >)
        ensures
            if forall|j: int|
                0 <= j < arms.len() ==> expr_supported(#[trigger] arms@[j].guard) && expr_supported(
                    arms@[j].value,
                ) {
                r is Ok
            } else {
                r matches Err(d) && d.kind == DriverError::UnsupportedHardwareValueExpression && d.span
                    == origin.span
            },
        decreases arms,
    {
        let mut i: usize = 0;
        while i < arms.len()
            invariant
                i <= arms.len(),
                forall|j: int|
                    0 <= j < i ==> expr_supported(#[trigger] arms@[j].guard) && expr_supported(
                        arms@[j].value,
                    ),
            decreases arms.len() - i,
        {
            assert(decreases_to!(arms => arms@[i as int]));
            match self.check_select_arm(&arms[i], origin) {
                Err(d) => {
                    proof {
                        assert(!(expr_supported(arms@[i as int].guard) && expr_supported(
                            arms@[i as int].value,
                        )));
                    }
                    return Err(d);
                },
                Ok(()) => {},
            }
            i = i + 1;
        }
        Ok(())
    }

    /// Checks the guard and value of a select arm.
    pub fn check_select_arm(&self, arm: &EirSelectArm, origin: &EirOrigin) -> (r: Result<
        (),
        DriverDiagnostic,
    >)
        ensures
            if expr_supported(arm.guard) && expr_supported(arm.value) {
                r is Ok
            } else {
                r matches Err(d) && d.kind == DriverError::UnsupportedHardwareValueExpression && d.span
                    == origin.span
            },
        decreases arm,
    {
        self.check_expr(arm.guard(), origin)?;
        self.check_expr(arm.value(), origin)
    }
}

} // verus!
