//! Driven places and the expressions that index them.
use crate::bound::{BoundModel, DriverBitRange, DriverBound, RangeModel, eir_bound_model};
use crate::expr::{EirBinaryOp, EirBound, EirExpr, EirPlace, EirUnaryOp};
use crate::text::{chars_of, nat_digits, push_all, str_eq, string_of, u64_digits};
use vstd::prelude::*;

verus! {

/// The identity of a storage object.
#[derive(Clone, Copy, Debug, PartialEq, Eq, PartialOrd, Ord, Hash, Structural)]
pub struct ObjectId(pub usize);

impl ObjectId {
    pub fn new(index: usize) -> (r: Self)
        ensures
            r.0 == index,
    {
        ObjectId(index)
    }
}

/// An expression of a driven place, in the form the driver checks use.
#[derive(Debug)]
pub enum DriverExpr {
    Ident(String),
    Int(u64),
    Bool(bool),
    Str(String),
    Zero,
    HighZ,
    Unary { op: EirUnaryOp, expr: Box<DriverExpr> },
    Binary { op: EirBinaryOp, left: Box<DriverExpr>, right: Box<DriverExpr> },
    Mux { cond: Box<DriverExpr>, then_value: Box<DriverExpr>, else_value: Box<DriverExpr> },
    Concat(Vec<DriverExpr>),
    Slice { value: Box<DriverExpr>, range: DriverBitRange },
    IndexedPartSelect { value: Box<DriverExpr>, index: Box<DriverExpr>, width: DriverBound },
    Index { value: Box<DriverExpr>, index: Box<DriverExpr> },
    Call { name: String, args: Vec<DriverExpr> },
}

/// An expression that the driver checks cannot take.
#[derive(Clone, Copy, Debug, PartialEq, Eq, Structural)]
pub struct DriverExprError;

// ---------------------------------------------------------------------------
// Lowering elaborated expressions
// ---------------------------------------------------------------------------

/// The expression holds nothing unsupported.
pub open spec fn lowerable(e: EirExpr) -> bool
    decreases e,
{
    match e {
        EirExpr::Unsupported { .. } => false,
        EirExpr::Unary { expr, .. } => lowerable(*expr),
        EirExpr::Binary { left, right, .. } => lowerable(*left) && lowerable(*right),
        EirExpr::Mux { cond, then_value, else_value } => lowerable(*cond) && lowerable(*then_value)
            && lowerable(*else_value),
        EirExpr::Select { arms, default, .. } => lowerable(*default) && forall|i: int|
            0 <= i < arms.len() ==> lowerable(#[trigger] arms@[i].guard) && lowerable(
                arms@[i].value,
            ),
        EirExpr::Concat(parts) => forall|i: int|
            0 <= i < parts.len() ==> lowerable(#[trigger] parts@[i]),
        EirExpr::Slice { value, .. } => lowerable(*value),
        EirExpr::IndexedPartSelect { value, index, .. } => lowerable(*value) && lowerable(*index),
        EirExpr::Index { value, index } => lowerable(*value) && lowerable(*index),
        EirExpr::Call { args, .. } => forall|i: int|
            0 <= i < args.len() ==> lowerable(#[trigger] args@[i]),
        _ => true,
    }
}

/// `d` is the driver form of `e`: the same tree, with selects turned into
/// chains of muxes (first arm outermost, the default innermost) and bounds
/// turned into driver bounds.
pub open spec fn lowers_to(e: EirExpr, d: DriverExpr) -> bool
    decreases e, 1int, 0int,
{
    match e {
        EirExpr::Ident(n) => d == DriverExpr::Ident(n),
        EirExpr::Int(v) => d == DriverExpr::Int(v),
        EirExpr::Bool(v) => d == DriverExpr::Bool(v),
        EirExpr::Str(v) => d == DriverExpr::Str(v),
        EirExpr::Zero => d == DriverExpr::Zero,
        EirExpr::HighZ => d == DriverExpr::HighZ,
        EirExpr::Unary { op, expr } => d matches DriverExpr::Unary { op: o, expr: x } && o == op
            && lowers_to(*expr, *x),
        EirExpr::Binary { op, left, right } => d matches DriverExpr::Binary {
            op: o,
            left: l,
            right: r,
        } && o == op && lowers_to(*left, *l) && lowers_to(*right, *r),
        EirExpr::Mux { cond, then_value, else_value } => d matches DriverExpr::Mux {
            cond: c,
            then_value: t,
            else_value: x,
        } && lowers_to(*cond, *c) && lowers_to(*then_value, *t) && lowers_to(*else_value, *x),
        EirExpr::Select { .. } => select_lowers_to(e, 0, d),
        EirExpr::Concat(parts) => d matches DriverExpr::Concat(ds) && ds.len() == parts.len() && (
        forall|i: int| 0 <= i < parts.len() ==> lowers_to(#[trigger] parts@[i], ds@[i])),
        EirExpr::Slice { value, high, low } => d matches DriverExpr::Slice { value: v, range }
            && lowers_to(*value, *v) && range@ == (RangeModel {
            low: eir_bound_model(low),
            high: eir_bound_model(high),
        }),
        EirExpr::IndexedPartSelect { value, index, width } => d matches DriverExpr::IndexedPartSelect {
            value: v,
            index: i,
            width: w,
        } && lowers_to(*value, *v) && lowers_to(*index, *i) && w@ == eir_bound_model(width),
        EirExpr::Index { value, index } => d matches DriverExpr::Index { value: v, index: i }
            && lowers_to(*value, *v) && lowers_to(*index, *i),
        EirExpr::Call { name, args } => d matches DriverExpr::Call { name: n, args: ds } && n
            == name && ds.len() == args.len() && (forall|i: int|
            0 <= i < args.len() ==> lowers_to(#[trigger] args@[i], ds@[i])),
        EirExpr::Unsupported { .. } => false,
    }
}

/// The arms of select `e` from arm `k` on lower to the mux chain `d`.
pub open spec fn select_lowers_to(e: EirExpr, k: int, d: DriverExpr) -> bool
    decreases e, 0int, (match e {
        EirExpr::Select { arms, .. } => arms.len() - k,
        _ => 0,
    }),
{
    match e {
        EirExpr::Select { arms, default, .. } => if 0 <= k < arms.len() {
            d matches DriverExpr::Mux { cond, then_value, else_value } && lowers_to(
                arms@[k].guard,
                *cond,
            ) && lowers_to(arms@[k].value, *then_value) && select_lowers_to(e, k + 1, *else_value)
        } else {
            lowers_to(*default, d)
        },
        _ => false,
    }
}

} // verus!

verus! {

// ---------------------------------------------------------------------------
// Text and queries
// ---------------------------------------------------------------------------

/// The name of a unary operator as `Debug` writes it.
pub open spec fn unary_debug_name(op: EirUnaryOp) -> Seq<char> {
    match op {
        EirUnaryOp::Neg => "Neg"@,
        EirUnaryOp::Not => "Not"@,
    }
}

/// The name of a binary operator as `Debug` writes it.
pub open spec fn binary_debug_name(op: EirBinaryOp) -> Seq<char> {
    match op {
        EirBinaryOp::OrOr => "OrOr"@,
        EirBinaryOp::AndAnd => "AndAnd"@,
        EirBinaryOp::Eq => "Eq"@,
        EirBinaryOp::NotEq => "NotEq"@,
        EirBinaryOp::Lt => "Lt"@,
        EirBinaryOp::LtEq => "LtEq"@,
        EirBinaryOp::Gt => "Gt"@,
        EirBinaryOp::GtEq => "GtEq"@,
        EirBinaryOp::Add => "Add"@,
        EirBinaryOp::Sub => "Sub"@,
        EirBinaryOp::Mul => "Mul"@,
        EirBinaryOp::Div => "Div"@,
        EirBinaryOp::Rem => "Rem"@,
        EirBinaryOp::Shl => "Shl"@,
        EirBinaryOp::BitAnd => "BitAnd"@,
        EirBinaryOp::BitOr => "BitOr"@,
        EirBinaryOp::BitXor => "BitXor"@,
    }
}

fn unary_debug(op: EirUnaryOp) -> (r: &'static str)
    ensures
        r@ == unary_debug_name(op),
{
    match op {
        EirUnaryOp::Neg => "Neg",
        EirUnaryOp::Not => "Not",
    }
}

fn binary_debug(op: EirBinaryOp) -> (r: &'static str)
    ensures
        r@ == binary_debug_name(op),
{
    match op {
        EirBinaryOp::OrOr => "OrOr",
        EirBinaryOp::AndAnd => "AndAnd",
        EirBinaryOp::Eq => "Eq",
        EirBinaryOp::NotEq => "NotEq",
        EirBinaryOp::Lt => "Lt",
        EirBinaryOp::LtEq => "LtEq",
        EirBinaryOp::Gt => "Gt",
        EirBinaryOp::GtEq => "GtEq",
        EirBinaryOp::Add => "Add",
        EirBinaryOp::Sub => "Sub",
        EirBinaryOp::Mul => "Mul",
        EirBinaryOp::Div => "Div",
        EirBinaryOp::Rem => "Rem",
        EirBinaryOp::Shl => "Shl",
        EirBinaryOp::BitAnd => "BitAnd",
        EirBinaryOp::BitOr => "BitOr",
        EirBinaryOp::BitXor => "BitXor",
    }
}

/// The text by which a driver expression is shown in messages.
pub open spec fn display_text(d: DriverExpr) -> Seq<char>
    decreases d,
{
    match d {
        DriverExpr::Ident(name) => name@,
        DriverExpr::Int(value) => nat_digits(value as nat),
        DriverExpr::Bool(value) => if value {
            "true"@
        } else {
            "false"@
        },
        DriverExpr::Str(value) => "str("@ + value@ + ")"@,
        DriverExpr::Zero => "zero"@,
        DriverExpr::HighZ => "z"@,
        DriverExpr::Unary { op, expr } => unary_debug_name(op) + "("@ + display_text(*expr) + ")"@,
        DriverExpr::Binary { op, left, right } => binary_debug_name(op) + "("@ + display_text(*left)
            + ","@ + display_text(*right) + ")"@,
        DriverExpr::Mux { cond, then_value, else_value } => "mux("@ + display_text(*cond) + ","@
            + display_text(*then_value) + ","@ + display_text(*else_value) + ")"@,
        DriverExpr::Concat(parts) => "concat("@ + display_list(parts@) + ")"@,
        DriverExpr::Slice { value, range } => "slice("@ + display_text(*value) + ","@
            + range@.high.source + ","@ + range@.low.source + ")"@,
        DriverExpr::IndexedPartSelect { value, index, width } => "part("@ + display_text(*value)
            + ","@ + display_text(*index) + ","@ + width@.source + ")"@,
        DriverExpr::Index { value, index } => "idx("@ + display_text(*value) + ","@ + display_text(
            *index,
        ) + ")"@,
        DriverExpr::Call { name, args } => "call("@ + name@ + ","@ + display_list(args@) + ")"@,
    }
}

/// The texts of driver expressions, separated by commas.
pub open spec fn display_list(parts: Seq<DriverExpr>) -> Seq<char>
    decreases parts,
{
    if parts.len() == 0 {
        Seq::empty()
    } else if parts.len() == 1 {
        display_text(parts[0])
    } else {
        display_list(parts.drop_last()) + ","@ + display_text(parts.last())
    }
}

/// The expression mentions the name `root`.
pub open spec fn refs_root(d: DriverExpr, root: Seq<char>) -> bool
    decreases d,
{
    match d {
        DriverExpr::Ident(name) => name@ == root,
        DriverExpr::Unary { expr, .. } => refs_root(*expr, root),
        DriverExpr::Binary { left, right, .. } => refs_root(*left, root) || refs_root(*right, root),
        DriverExpr::Mux { cond, then_value, else_value } => refs_root(*cond, root) || refs_root(
            *then_value,
            root,
        ) || refs_root(*else_value, root),
        DriverExpr::Concat(parts) => exists|i: int|
            0 <= i < parts.len() && refs_root(#[trigger] parts@[i], root),
        DriverExpr::Slice { value, .. } => refs_root(*value, root),
        DriverExpr::IndexedPartSelect { value, index, .. } => refs_root(*value, root) || refs_root(
            *index,
            root,
        ),
        DriverExpr::Index { value, index } => refs_root(*value, root) || refs_root(*index, root),
        DriverExpr::Call { args, .. } => exists|i: int|
            0 <= i < args.len() && refs_root(#[trigger] args@[i], root),
        _ => false,
    }
}

/// Two driver expressions have the same structure, leaves and bounds.
pub open spec fn same_driver_expr(a: DriverExpr, b: DriverExpr) -> bool
    decreases a,
{
    match a {
        DriverExpr::Unary { op, expr } => b matches DriverExpr::Unary { op: o, expr: x } && op == o
            && same_driver_expr(*expr, *x),
        DriverExpr::Binary { op, left, right } => b matches DriverExpr::Binary {
            op: o,
            left: l,
            right: r,
        } && op == o && same_driver_expr(*left, *l) && same_driver_expr(*right, *r),
        DriverExpr::Mux { cond, then_value, else_value } => b matches DriverExpr::Mux {
            cond: c,
            then_value: t,
            else_value: e,
        } && same_driver_expr(*cond, *c) && same_driver_expr(*then_value, *t) && same_driver_expr(
            *else_value,
            *e,
        ),
        DriverExpr::Concat(parts) => b matches DriverExpr::Concat(ps) && parts.len() == ps.len() && (
        forall|i: int| 0 <= i < parts.len() ==> same_driver_expr(#[trigger] parts@[i], ps@[i])),
        DriverExpr::Slice { value, range } => b matches DriverExpr::Slice { value: v, range: r }
            && same_driver_expr(*value, *v) && range@ == r@,
        DriverExpr::IndexedPartSelect { value, index, width } => b matches DriverExpr::IndexedPartSelect {
            value: v,
            index: i,
            width: w,
        } && same_driver_expr(*value, *v) && same_driver_expr(*index, *i) && width@ == w@,
        DriverExpr::Index { value, index } => b matches DriverExpr::Index { value: v, index: i }
            && same_driver_expr(*value, *v) && same_driver_expr(*index, *i),
        DriverExpr::Call { name, args } => b matches DriverExpr::Call { name: n, args: xs } && name@
            == n@ && args.len() == xs.len() && (forall|i: int|
            0 <= i < args.len() ==> same_driver_expr(#[trigger] args@[i], xs@[i])),
        DriverExpr::Ident(name) => b matches DriverExpr::Ident(n) && name@ == n@,
        DriverExpr::Str(value) => b matches DriverExpr::Str(v) && value@ == v@,
        _ => a == b,
    }
}

fn push_str(out: &mut Vec<char>, s: &str)
    ensures
        final(out)@ == old(out)@ + s@,
{
    let v = chars_of(s);
    push_all(out, &v);
}

impl DriverExpr {
    /// The value, when the expression is an integer literal.
    pub open spec fn as_int_spec(&self) -> Option<u64> {
        match self {
            DriverExpr::Int(v) => Some(*v),
            _ => None,
        }
    }

    /// The value, when the expression is an integer literal.
    pub fn as_int(&self) -> (r: Option<u64>)
        ensures
            r == self.as_int_spec(),
    {
        match self {
            DriverExpr::Int(v) => Some(*v),
            _ => None,
        }
    }

    /// The driver form of an elaborated expression; an error when the
    /// expression holds anything unsupported.
    pub fn from_eir_expr(expr: &EirExpr) -> (r: Result<Self, DriverExprError>)
        ensures
            r is Ok <==> lowerable(*expr),
            r matches Ok(d) ==> lowers_to(*expr, d),
        decreases expr,
    {
        match expr {
            EirExpr::Ident(name) => Ok(DriverExpr::Ident(name.clone())),
            EirExpr::Int(value) => Ok(DriverExpr::Int(*value)),
            EirExpr::Bool(value) => Ok(DriverExpr::Bool(*value)),
            EirExpr::Str(value) => Ok(DriverExpr::Str(value.clone())),
            EirExpr::Zero => Ok(DriverExpr::Zero),
            EirExpr::HighZ => Ok(DriverExpr::HighZ),
            EirExpr::Unary { op, expr } => Ok(
                DriverExpr::Unary { op: *op, expr: Box::new(Self::from_eir_expr(expr)?) },
            ),
            EirExpr::Binary { op, left, right } => {
                let l = Self::from_eir_expr(left)?;
                let r = Self::from_eir_expr(right)?;
                Ok(DriverExpr::Binary { op: *op, left: Box::new(l), right: Box::new(r) })
            },
            EirExpr::Mux { cond, then_value, else_value } => {
                let c = Self::from_eir_expr(cond)?;
                let t = Self::from_eir_expr(then_value)?;
                let e = Self::from_eir_expr(else_value)?;
                Ok(
                    DriverExpr::Mux {
                        cond: Box::new(c),
                        then_value: Box::new(t),
                        else_value: Box::new(e),
                    },
                )
            },
            EirExpr::Select { arms, default, .. } => {
                let mut result = Self::from_eir_expr(default)?;
                let mut i = arms.len();
                while i > 0
                    invariant
                        i <= arms.len(),
                        *expr matches EirExpr::Select { arms: a, default: d, .. } && a == *arms && *d
                            == **default,
                        lowerable(**default),
                        forall|j: int|
                            i <= j < arms.len() ==> lowerable(#[trigger] arms@[j].guard) && lowerable(
                                arms@[j].value,
                            ),
                        select_lowers_to(*expr, i as int, result),
                    decreases i,
                {
                    i = i - 1;
                    assert(decreases_to!(arms => arms@[i as int]));
                    let cond = Self::from_eir_expr(&arms[i].guard)?;
                    let value = Self::from_eir_expr(&arms[i].value)?;
                    result = DriverExpr::Mux {
                        cond: Box::new(cond),
                        then_value: Box::new(value),
                        else_value: Box::new(result),
                    };
                }
                Ok(result)
            },
            EirExpr::Concat(parts) => Ok(DriverExpr::Concat(Self::lower_all(parts)?)),
            EirExpr::Slice { value, high, low } => {
                let v = Self::from_eir_expr(value)?;
                Ok(DriverExpr::Slice { value: Box::new(v), range: DriverBitRange::from_eir_bounds(low, high) })
            },
            EirExpr::IndexedPartSelect { value, index, width } => {
                let v = Self::from_eir_expr(value)?;
                let i = Self::from_eir_expr(index)?;
                Ok(
                    DriverExpr::IndexedPartSelect {
                        value: Box::new(v),
                        index: Box::new(i),
                        width: DriverBound::from_eir_bound(width),
                    },
                )
            },
            EirExpr::Index { value, index } => {
                let v = Self::from_eir_expr(value)?;
                let i = Self::from_eir_expr(index)?;
                Ok(DriverExpr::Index { value: Box::new(v), index: Box::new(i) })
            },
            EirExpr::Call { name, args } => Ok(
                DriverExpr::Call { name: name.clone(), args: Self::lower_all(args)? },
            ),
            EirExpr::Unsupported { .. } => Err(DriverExprError),
        }
    }

    fn lower_all(parts: &Vec<EirExpr>) -> (r: Result<Vec<DriverExpr>, DriverExprError>)
        ensures
            r is Ok <==> forall|i: int| 0 <= i < parts.len() ==> lowerable(#[trigger] parts@[i]),
            r matches Ok(ds) ==> ds.len() == parts.len() && forall|i: int|
                0 <= i < parts.len() ==> lowers_to(#[trigger] parts@[i], ds@[i]),
        decreases parts,
    {
        let mut out: Vec<DriverExpr> = Vec::new();
        let mut i: usize = 0;
        while i < parts.len()
            invariant
                i <= parts.len(),
                out.len() == i,
                forall|j: int| 0 <= j < i ==> lowerable(#[trigger] parts@[j]),
                forall|j: int| 0 <= j < i ==> lowers_to(#[trigger] parts@[j], out@[j]),
            decreases parts.len() - i,
        {
            assert(decreases_to!(parts => parts@[i as int]));
            let d = Self::from_eir_expr(&parts[i])?;
            out.push(d);
            i = i + 1;
        }
        Ok(out)
    }

    /// The text by which the expression is shown in messages.
    pub fn display(&self) -> (r: String)
        ensures
            r@ == display_text(*self),
    {
        let mut out: Vec<char> = Vec::new();
        self.push_display(&mut out);
        string_of(&out)
    }

    #[verifier::rlimit(60)]
    fn push_display(&self, out: &mut Vec<char>)
        ensures
            final(out)@ == old(out)@ + display_text(*self),
        decreases self, 1int,
    {
        let ghost start = out@;
        match self {
            DriverExpr::Ident(name) => push_str(out, name.as_str()),
            DriverExpr::Int(value) => {
                let digits = u64_digits(*value);
                push_all(out, &digits);
            },
            DriverExpr::Bool(value) => {
                if *value {
                    push_str(out, "true");
                } else {
                    push_str(out, "false");
                }
            },
            DriverExpr::Str(value) => {
                push_str(out, "str(");
                push_str(out, value.as_str());
                push_str(out, ")");
            },
            DriverExpr::Zero => push_str(out, "zero"),
            DriverExpr::HighZ => push_str(out, "z"),
            DriverExpr::Unary { op, expr } => {
                push_str(out, unary_debug(*op));
                push_str(out, "(");
                expr.push_display(out);
                push_str(out, ")");
                assert(out@ =~= start + display_text(*self));
            },
            DriverExpr::Binary { op, left, right } => {
                push_str(out, binary_debug(*op));
                push_str(out, "(");
                left.push_display(out);
                push_str(out, ",");
                right.push_display(out);
                push_str(out, ")");
                assert(out@ =~= start + display_text(*self));
            },
            DriverExpr::Mux { cond, then_value, else_value } => {
                push_str(out, "mux(");
                cond.push_display(out);
                push_str(out, ",");
                then_value.push_display(out);
                push_str(out, ",");
                else_value.push_display(out);
                push_str(out, ")");
                assert(out@ =~= start + display_text(*self));
            },
            _ => self.push_display_compound(out),
        }
    }

    #[verifier::rlimit(60)]
    fn push_display_compound(&self, out: &mut Vec<char>)
        requires
            self is Concat || self is Slice || self is IndexedPartSelect || self is Index
                || self is Call,
        ensures
            final(out)@ == old(out)@ + display_text(*self),
        decreases self, 0int,
    {
        let ghost start = out@;
        match self {
            DriverExpr::Concat(parts) => {
                push_str(out, "concat(");
                Self::push_display_list(parts, out);
                push_str(out, ")");
                assert(out@ =~= start + display_text(*self));
            },
            DriverExpr::Slice { value, range } => {
                push_str(out, "slice(");
                value.push_display(out);
                push_str(out, ",");
                let shown = range.display();
                push_str(out, shown.as_str());
                push_str(out, ")");
                assert(out@ =~= start + display_text(*self));
            },
            DriverExpr::IndexedPartSelect { value, index, width } => {
                push_str(out, "part(");
                value.push_display(out);
                push_str(out, ",");
                index.push_display(out);
                push_str(out, ",");
                push_str(out, width.source());
                push_str(out, ")");
                assert(out@ =~= start + display_text(*self));
            },
            DriverExpr::Index { value, index } => {
                push_str(out, "idx(");
                value.push_display(out);
                push_str(out, ",");
                index.push_display(out);
                push_str(out, ")");
                assert(out@ =~= start + display_text(*self));
            },
            DriverExpr::Call { name, args } => {
                push_str(out, "call(");
                push_str(out, name.as_str());
                push_str(out, ",");
                Self::push_display_list(args, out);
                push_str(out, ")");
                assert(out@ =~= start + display_text(*self));
            },
            _ => {},
        }
    }

    fn push_display_list(parts: &Vec<DriverExpr>, out: &mut Vec<char>)
        ensures
            final(out)@ == old(out)@ + display_list(parts@),
        decreases parts, 2int,
    {
        let mut i: usize = 0;
        while i < parts.len()
            invariant
                i <= parts.len(),
                out@ == old(out)@ + display_list(parts@.take(i as int)),
            decreases parts.len() - i,
        {
            assert(parts@.take(i + 1).drop_last() =~= parts@.take(i as int));
            assert(parts@.take(i + 1).last() == parts@[i as int]);
            if i > 0 {
                push_str(out, ",");
            }
            assert(decreases_to!(parts => parts@[i as int]));
            parts[i].push_display(out);
            i = i + 1;
        }
        assert(parts@.take(parts.len() as int) =~= parts@);
    }

    /// The expression mentions the name `root`.
    pub fn references_root(&self, root: &str) -> (r: bool)
        ensures
            r == refs_root(*self, root@),
        decreases self,
    {
        match self {
            DriverExpr::Ident(name) => str_eq(name.as_str(), root),
            DriverExpr::Unary { expr, .. } => expr.references_root(root),
            DriverExpr::Binary { left, right, .. } => left.references_root(root)
                || right.references_root(root),
            DriverExpr::Mux { cond, then_value, else_value } => cond.references_root(root)
                || then_value.references_root(root) || else_value.references_root(root),
            DriverExpr::Concat(parts) => Self::any_references_root(parts, root),
            DriverExpr::Slice { value, .. } => value.references_root(root),
            DriverExpr::IndexedPartSelect { value, index, .. } => value.references_root(root)
                || index.references_root(root),
            DriverExpr::Index { value, index } => value.references_root(root)
                || index.references_root(root),
            DriverExpr::Call { args, .. } => Self::any_references_root(args, root),
            _ => false,
        }
    }

    fn any_references_root(parts: &Vec<DriverExpr>, root: &str) -> (r: bool)
        ensures
            r == exists|i: int| 0 <= i < parts.len() && refs_root(#[trigger] parts@[i], root@),
        decreases parts,
    {
        let mut i: usize = 0;
        while i < parts.len()
            invariant
                i <= parts.len(),
                forall|j: int| 0 <= j < i ==> !refs_root(#[trigger] parts@[j], root@),
            decreases parts.len() - i,
        {
            assert(decreases_to!(parts => parts@[i as int]));
            if parts[i].references_root(root) {
                return true;
            }
            i = i + 1;
        }
        false
    }

    /// The two expressions have the same structure, leaves and bounds.
    pub fn same_as(&self, other: &Self) -> (r: bool)
        ensures
            r == same_driver_expr(*self, *other),
        decreases self,
    {
        match (self, other) {
            (DriverExpr::Ident(a), DriverExpr::Ident(b)) => str_eq(a.as_str(), b.as_str()),
            (DriverExpr::Int(a), DriverExpr::Int(b)) => *a == *b,
            (DriverExpr::Bool(a), DriverExpr::Bool(b)) => *a == *b,
            (DriverExpr::Str(a), DriverExpr::Str(b)) => str_eq(a.as_str(), b.as_str()),
            (DriverExpr::Zero, DriverExpr::Zero) => true,
            (DriverExpr::HighZ, DriverExpr::HighZ) => true,
            (DriverExpr::Unary { op: o1, expr: e1 }, DriverExpr::Unary { op: o2, expr: e2 }) => *o1
                == *o2 && e1.same_as(e2),
            (
                DriverExpr::Binary { op: o1, left: l1, right: r1 },
                DriverExpr::Binary { op: o2, left: l2, right: r2 },
            ) => *o1 == *o2 && l1.same_as(l2) && r1.same_as(r2),
            (
                DriverExpr::Mux { cond: c1, then_value: t1, else_value: e1 },
                DriverExpr::Mux { cond: c2, then_value: t2, else_value: e2 },
            ) => c1.same_as(c2) && t1.same_as(t2) && e1.same_as(e2),
            (DriverExpr::Concat(p1), DriverExpr::Concat(p2)) => Self::all_same(p1, p2),
            (
                DriverExpr::Slice { value: v1, range: r1 },
                DriverExpr::Slice { value: v2, range: r2 },
            ) => v1.same_as(v2) && r1.same_as(r2),
            (
                DriverExpr::IndexedPartSelect { value: v1, index: i1, width: w1 },
                DriverExpr::IndexedPartSelect { value: v2, index: i2, width: w2 },
            ) => v1.same_as(v2) && i1.same_as(i2) && w1.same_as(w2),
            (
                DriverExpr::Index { value: v1, index: i1 },
                DriverExpr::Index { value: v2, index: i2 },
            ) => v1.same_as(v2) && i1.same_as(i2),
            (DriverExpr::Call { name: n1, args: a1 }, DriverExpr::Call { name: n2, args: a2 }) => {
                str_eq(n1.as_str(), n2.as_str()) && Self::all_same(a1, a2)
            },
            _ => false,
        }
    }

    fn all_same(a: &Vec<DriverExpr>, b: &Vec<DriverExpr>) -> (r: bool)
        ensures
            r == (a.len() == b.len() && forall|i: int|
                0 <= i < a.len() ==> same_driver_expr(#[trigger] a@[i], b@[i])),
        decreases a,
    {
        if a.len() != b.len() {
            return false;
        }
        let mut i: usize = 0;
        while i < a.len()
            invariant
                i <= a.len(),
                a.len() == b.len(),
                forall|j: int| 0 <= j < i ==> same_driver_expr(#[trigger] a@[j], b@[j]),
            decreases a.len() - i,
        {
            assert(decreases_to!(a => a@[i as int]));
            if !a[i].same_as(&b[i]) {
                return false;
            }
            i = i + 1;
        }
        true
    }
}

} // verus!

verus! {

// ---------------------------------------------------------------------------
// Places
// ---------------------------------------------------------------------------

/// A storage object as the driver checks know it: its identity and name.
#[derive(Debug)]
pub struct DriverObject {
    pub id: ObjectId,
    pub name: String,
}

impl DriverObject {
    pub fn new(id: ObjectId, name: &str) -> (r: Self)
        ensures
            r.id == id,
            r.name@ == name@,
    {
        DriverObject { id, name: name.to_owned() }
    }

    pub fn id(&self) -> (r: ObjectId)
        ensures
            r == self.id,
    {
        self.id
    }

    pub fn name(&self) -> (r: &str)
        ensures
            r@ == self.name@,
    {
        self.name.as_str()
    }
}

/// A driven place: a root with slices and indexes applied.
#[derive(Debug)]
pub enum DriverPlace {
    Ident(String),
    Object(DriverObject),
    Slice { base: Box<DriverPlace>, range: DriverBitRange },
    IndexedPartSelect { base: Box<DriverPlace>, index: DriverExpr, width: DriverBound },
    Index { base: Box<DriverPlace>, index: DriverExpr },
    Expr(DriverExpr),
}

/// An elaborated place holds a name the checks cannot resolve, or an
/// unsupported expression.
#[derive(Debug, PartialEq, Eq)]
pub enum DriverPlaceError {
    UnsupportedExpr,
    UnknownObject { module: String, name: String },
}

/// The text by which a place is shown in messages.
pub open spec fn place_text(p: DriverPlace) -> Seq<char>
    decreases p,
{
    match p {
        DriverPlace::Ident(name) => name@,
        DriverPlace::Object(object) => object.name@,
        DriverPlace::Slice { base, range } => "slice("@ + place_text(*base) + ","@
            + range@.high.source + ","@ + range@.low.source + ")"@,
        DriverPlace::IndexedPartSelect { base, index, width } => "part("@ + place_text(*base) + ","@
            + display_text(index) + ","@ + width@.source + ")"@,
        DriverPlace::Index { base, index } => "idx("@ + place_text(*base) + ","@ + display_text(
            index,
        ) + ")"@,
        DriverPlace::Expr(expr) => display_text(expr),
    }
}

impl DriverPlace {
    /// The text by which the place is shown in messages.
    pub fn display(&self) -> (r: String)
        ensures
            r@ == place_text(*self),
    {
        let mut out: Vec<char> = Vec::new();
        self.push_display(&mut out);
        string_of(&out)
    }

    fn push_display(&self, out: &mut Vec<char>)
        ensures
            final(out)@ == old(out)@ + place_text(*self),
        decreases self,
    {
        let ghost start = out@;
        match self {
            DriverPlace::Ident(name) => push_str(out, name.as_str()),
            DriverPlace::Object(object) => push_str(out, object.name.as_str()),
            DriverPlace::Slice { base, range } => {
                push_str(out, "slice(");
                base.push_display(out);
                push_str(out, ",");
                let shown = range.display();
                push_str(out, shown.as_str());
                push_str(out, ")");
                assert(out@ =~= start + place_text(*self));
            },
            DriverPlace::IndexedPartSelect { base, index, width } => {
                push_str(out, "part(");
                base.push_display(out);
                push_str(out, ",");
                let shown = index.display();
                push_str(out, shown.as_str());
                push_str(out, ",");
                push_str(out, width.source());
                push_str(out, ")");
                assert(out@ =~= start + place_text(*self));
            },
            DriverPlace::Index { base, index } => {
                push_str(out, "idx(");
                base.push_display(out);
                push_str(out, ",");
                let shown = index.display();
                push_str(out, shown.as_str());
                push_str(out, ")");
                assert(out@ =~= start + place_text(*self));
            },
            DriverPlace::Expr(expr) => {
                let shown = expr.display();
                push_str(out, shown.as_str());
            },
        }
    }
}

// ---------------------------------------------------------------------------
// Object table
// ---------------------------------------------------------------------------

/// What an object table holds: the (module, name) key of each object, its
/// identity being its position, and the widths recorded for identities.
pub struct TableModel {
    pub keys: Seq<(Seq<char>, Seq<char>)>,
    pub widths: Map<usize, BoundModel>,
}

/// The position of a key in the table, if it is there.
pub open spec fn key_position(keys: Seq<(Seq<char>, Seq<char>)>, key: (Seq<char>, Seq<char>)) -> Option<int> {
    if exists|i: int| 0 <= i < keys.len() && keys[i] == key {
        Some(choose|i: int| 0 <= i < keys.len() && keys[i] == key)
    } else {
        None
    }
}

/// No key is listed twice.
pub open spec fn keys_distinct(keys: Seq<(Seq<char>, Seq<char>)>) -> bool {
    forall|i: int, j: int| 0 <= i < j < keys.len() ==> keys[i] != keys[j]
}

/// The width list has an entry for an identity.
pub open spec fn lists_id(ws: Seq<(usize, DriverBound)>, id: usize) -> bool {
    exists|i: int| 0 <= i < ws.len() && ws[i].0 == id
}

/// The position of an identity's entry in the width list.
pub open spec fn id_index(ws: Seq<(usize, DriverBound)>, id: usize) -> int {
    choose|i: int| 0 <= i < ws.len() && ws[i].0 == id
}

/// The objects of a design, interned by module and name.
pub struct DriverObjectTable {
    objects: Vec<(String, String)>,
    widths: Vec<(usize, DriverBound)>,
}

impl View for DriverObjectTable {
    type V = TableModel;

    closed spec fn view(&self) -> TableModel {
        TableModel {
            keys: self.objects@.map_values(|k: (String, String)| (k.0@, k.1@)),
            widths: Map::new(
                |id: usize| lists_id(self.widths@, id),
                |id: usize| self.widths@[id_index(self.widths@, id)].1@,
            ),
        }
    }
}

impl DriverObjectTable {
    /// Identities in the width list are distinct, and keys are distinct.
    pub closed spec fn wf(&self) -> bool {
        &&& keys_distinct(self@.keys)
        &&& forall|i: int, j: int|
            0 <= i < j < self.widths.len() ==> self.widths@[i].0 != self.widths@[j].0
    }

    /// An empty table.
    pub fn new() -> (r: Self)
        ensures
            r.wf(),
            r@.keys.len() == 0,
            r@.widths == Map::<usize, BoundModel>::empty(),
    {
        let r = DriverObjectTable { objects: Vec::new(), widths: Vec::new() };
        assert(r@.widths =~= Map::<usize, BoundModel>::empty());
        r
    }

    fn find(&self, module: &str, name: &str) -> (r: Option<usize>)
        requires
            self.wf(),
        ensures
            match r {
                Some(i) => key_position(self@.keys, (module@, name@)) == Some(i as int),
                None => key_position(self@.keys, (module@, name@)) is None,
            },
    {
        let mut i: usize = 0;
        while i < self.objects.len()
            invariant
                i <= self.objects.len(),
                self.wf(),
                forall|j: int| 0 <= j < i ==> self@.keys[j] != (module@, name@),
            decreases self.objects.len() - i,
        {
            if str_eq(self.objects[i].0.as_str(), module) && str_eq(self.objects[i].1.as_str(), name) {
                proof {
                    assert(self@.keys[i as int] == (module@, name@));
                    let k = choose|k: int| 0 <= k < self@.keys.len() && self@.keys[k] == (module@, name@);
                    if k != i {
                        assert(self@.keys[k] == self@.keys[i as int]);
                    }
                }
                return Some(i);
            }
            i = i + 1;
        }
        None
    }

    /// The identity of an object, recording the object when it is new; a
    /// new object's identity is the number of objects recorded before it.
    pub fn intern(&mut self, module: &str, name: &str) -> (r: ObjectId)
        requires
            old(self).wf(),
        ensures
            final(self).wf(),
            final(self)@.widths == old(self)@.widths,
            match key_position(old(self)@.keys, (module@, name@)) {
                Some(i) => r.0 == i && final(self)@.keys == old(self)@.keys,
                None => r.0 == old(self)@.keys.len() && final(self)@.keys == old(self)@.keys.push(
                    (module@, name@),
                ),
            },
    {
        if let Some(i) = self.find(module, name) {
            return ObjectId::new(i);
        }
        let id = ObjectId::new(self.objects.len());
        let ghost before = self@;
        self.objects.push((module.to_owned(), name.to_owned()));
        proof {
            assert(self@.keys =~= before.keys.push((module@, name@)));
            assert(self@.widths =~= before.widths);
        }
        id
    }

    /// The identity of an object, recording it when it is new, and its width.
    pub fn intern_with_bound(&mut self, module: &str, name: &str, width: &EirBound) -> (r: ObjectId)
        requires
            old(self).wf(),
        ensures
            final(self).wf(),
            final(self)@.widths == old(self)@.widths.insert(r.0, eir_bound_model(*width)),
            match key_position(old(self)@.keys, (module@, name@)) {
                Some(i) => r.0 == i && final(self)@.keys == old(self)@.keys,
                None => r.0 == old(self)@.keys.len() && final(self)@.keys == old(self)@.keys.push(
                    (module@, name@),
                ),
            },
    {
        let id = self.intern(module, name);
        let bound = DriverBound::from_eir_bound(width);
        let ghost before = self@;
        let ghost before_widths = self.widths@;
        let mut i: usize = 0;
        while i < self.widths.len()
            invariant
                i <= self.widths.len(),
                self.wf(),
                self@ == before,
                self.widths@ == before_widths,
                bound@ == eir_bound_model(*width),
                before.widths == old(self)@.widths,
                match key_position(old(self)@.keys, (module@, name@)) {
                    Some(k) => id.0 == k && before.keys == old(self)@.keys,
                    None => id.0 == old(self)@.keys.len() && before.keys == old(self)@.keys.push(
                        (module@, name@),
                    ),
                },
                forall|j: int| 0 <= j < i ==> self.widths@[j].0 != id.0,
            decreases self.widths.len() - i,
        {
            if self.widths[i].0 == id.0 {
                let ghost old_objects = self.objects@;
                self.widths.set(i, (id.0, bound));
                proof {
                    assert(self.objects@ == old_objects);
                    assert(self@.keys =~= before.keys);
                    assert(forall|a: int, b: int| 0 <= a < b < self.widths.len() ==> self.widths@[a].0 != self.widths@[b].0) by {
                        assert forall|a: int, b: int| 0 <= a < b < self.widths.len() implies self.widths@[a].0 != self.widths@[b].0 by {
                            assert(self.widths@[a].0 == before_widths[a].0 && self.widths@[b].0 == before_widths[b].0);
                        }
                    }
                    let target = before.widths.insert(id.0, eir_bound_model(*width));
                    assert(self.widths@[i as int].0 == id.0);
                    assert forall|x: usize| #[trigger] self@.widths.contains_key(x) == target.contains_key(x) by {
                        if x == id.0 {
                            assert(self.widths@[i as int].0 == x);
                        }
                        if target.contains_key(x) && x != id.0 {
                            let k = id_index(before_widths, x);
                            assert(self.widths@[k].0 == x);
                        }
                        if self@.widths.contains_key(x) {
                            let k = id_index(self.widths@, x);
                            if k != i {
                                assert(before_widths[k].0 == x);
                            }
                        }
                    }
                    assert forall|x: usize| #[trigger] self@.widths.contains_key(x) implies self@.widths[x] == target[x] by {
                        let k = id_index(self.widths@, x);
                        if x == id.0 {
                            assert(k == i);
                            assert(self.widths@[k].1@ == eir_bound_model(*width));
                            assert(self@.widths[x] == self.widths@[k].1@);
                        } else {
                            assert(k != i);
                            assert(before_widths[k].0 == x);
                            let k2 = id_index(before_widths, x);
                            assert(0 <= k2 < before_widths.len() && before_widths[k2].0 == x);
                            assert(k2 == k);
                            assert(before.widths[x] == before_widths[k2].1@);
                            assert(self.widths@[k] == before_widths[k]);
                        }
                    }
                    assert(self@.widths =~= target);
                }
                return id;
            }
            i = i + 1;
        }
        let ghost old_objects = self.objects@;
        self.widths.push((id.0, bound));
        proof {
            assert(self.objects@ == old_objects);
            assert(self@.keys =~= before.keys);
            let target = before.widths.insert(id.0, eir_bound_model(*width));
            let n = before_widths.len() as int;
            assert forall|x: usize| #[trigger] self@.widths.contains_key(x) == target.contains_key(x) by {
                if target.contains_key(x) && x != id.0 {
                    let k = id_index(before_widths, x);
                    assert(self.widths@[k].0 == x);
                }
                if x == id.0 {
                    assert(self.widths@[n].0 == x);
                }
                if self@.widths.contains_key(x) {
                    let k = id_index(self.widths@, x);
                    if k != n {
                        assert(before_widths[k].0 == x);
                    }
                }
            }
            assert forall|x: usize| #[trigger] self@.widths.contains_key(x) implies self@.widths[x] == target[x] by {
                let k = id_index(self.widths@, x);
                if x == id.0 {
                    assert(k == n);
                } else {
                    assert(k != n);
                    assert(before_widths[k].0 == x);
                    let k2 = id_index(before_widths, x);
                    assert(k2 == k);
                }
            }
            assert(self@.widths =~= target);
        }
        id
    }

    /// The width recorded for an object.
    pub fn width(&self, id: ObjectId) -> (r: Option<&DriverBound>)
        requires
            self.wf(),
        ensures
            match r {
                Some(b) => self@.widths.contains_key(id.0) && self@.widths[id.0] == b@,
                None => !self@.widths.contains_key(id.0),
            },
    {
        let mut i: usize = 0;
        while i < self.widths.len()
            invariant
                i <= self.widths.len(),
                self.wf(),
                forall|j: int| 0 <= j < i ==> self.widths@[j].0 != id.0,
            decreases self.widths.len() - i,
        {
            if self.widths[i].0 == id.0 {
                proof {
                    let k = id_index(self.widths@, id.0);
                    assert(k == i);
                }
                return Some(&self.widths[i].1);
            }
            i = i + 1;
        }
        None
    }

    /// The identity of an object, if it is recorded.
    pub fn object_id(&self, module: &str, name: &str) -> (r: Option<ObjectId>)
        requires
            self.wf(),
        ensures
            match key_position(self@.keys, (module@, name@)) {
                Some(i) => r == Some(ObjectId(i as usize)),
                None => r is None,
            },
    {
        match self.find(module, name) {
            Some(i) => Some(ObjectId::new(i)),
            None => None,
        }
    }

    /// The object recorded under a module and name.
    pub fn object(&self, module: &str, name: &str) -> (r: Option<DriverObject>)
        requires
            self.wf(),
        ensures
            match key_position(self@.keys, (module@, name@)) {
                Some(i) => r matches Some(o) && o.id == ObjectId(i as usize) && o.name@ == name@,
                None => r is None,
            },
    {
        match self.find(module, name) {
            Some(i) => Some(DriverObject::new(ObjectId::new(i), name)),
            None => None,
        }
    }
}

// ---------------------------------------------------------------------------
// Resolving elaborated places
// ---------------------------------------------------------------------------

/// The error that resolving an elaborated place meets first, if any: an
/// unknown root name, then an unsupported index expression, working from the
/// root outward.
pub open spec fn resolve_error(
    table: TableModel,
    module: Seq<char>,
    p: EirPlace,
) -> Option<bool>
    decreases p,
{
    match p {
        EirPlace::Ident(name) => if key_position(table.keys, (module, name@)) is Some {
            None
        } else {
            Some(true)
        },
        EirPlace::Slice { base, .. } => resolve_error(table, module, *base),
        EirPlace::IndexedPartSelect { base, index, .. } => match resolve_error(table, module, *base) {
            Some(e) => Some(e),
            None => if lowerable(index) {
                None
            } else {
                Some(false)
            },
        },
        EirPlace::Index { base, index } => match resolve_error(table, module, *base) {
            Some(e) => Some(e),
            None => if lowerable(index) {
                None
            } else {
                Some(false)
            },
        },
    }
}

/// `d` is the driver place of elaborated place `p`: its root name resolved
/// to the recorded object, its indexes lowered and its bounds converted.
pub open spec fn resolves_to(table: TableModel, module: Seq<char>, p: EirPlace, d: DriverPlace) -> bool
    decreases p,
{
    match p {
        EirPlace::Ident(name) => match key_position(table.keys, (module, name@)) {
            Some(i) => d matches DriverPlace::Object(o) && o.id == ObjectId(i as usize) && o.name@
                == name@,
            None => false,
        },
        EirPlace::Slice { base, high, low } => d matches DriverPlace::Slice { base: b, range }
            && resolves_to(table, module, *base, *b) && range@ == (RangeModel {
            low: eir_bound_model(low),
            high: eir_bound_model(high),
        }),
        EirPlace::IndexedPartSelect { base, index, width } => d matches DriverPlace::IndexedPartSelect {
            base: b,
            index: i,
            width: w,
        } && resolves_to(table, module, *base, *b) && lowers_to(index, i) && w@ == eir_bound_model(
            width,
        ),
        EirPlace::Index { base, index } => d matches DriverPlace::Index { base: b, index: i }
            && resolves_to(table, module, *base, *b) && lowers_to(index, i),
    }
}

/// Resolves the elaborated places of one module against an object table.
pub struct DriverPlaceResolver<'a> {
    pub module: String,
    pub objects: &'a DriverObjectTable,
}

impl<'a> DriverPlaceResolver<'a> {
    pub fn new(module: &str, objects: &'a DriverObjectTable) -> (r: Self)
        ensures
            r.module@ == module@,
            r.objects == objects,
    {
        DriverPlaceResolver { module: module.to_owned(), objects }
    }

    /// The driver place of an elaborated place, or the first error met.
    pub fn resolve_place(&self, place: &EirPlace) -> (r: Result<DriverPlace, DriverPlaceError>)
        requires
            self.objects.wf(),
        ensures
            match r {
                Ok(d) => resolve_error(self.objects@, self.module@, *place) is None && resolves_to(
                    self.objects@,
                    self.module@,
                    *place,
                    d,
                ),
                Err(DriverPlaceError::UnknownObject { module, name }) => resolve_error(
                    self.objects@,
                    self.module@,
                    *place,
                ) == Some(true) && module@ == self.module@ && name@ == root_name(*place),
                Err(DriverPlaceError::UnsupportedExpr) => resolve_error(
                    self.objects@,
                    self.module@,
                    *place,
                ) == Some(false),
            },
        decreases place,
    {
        match place {
            EirPlace::Ident(name) => self.ident_place(name.as_str()),
            EirPlace::Slice { base, high, low } => {
                let b = self.resolve_place(base)?;
                Ok(DriverPlace::Slice { base: Box::new(b), range: DriverBitRange::from_eir_bounds(low, high) })
            },
            EirPlace::IndexedPartSelect { base, index, width } => {
                let b = self.resolve_place(base)?;
                let i = match DriverExpr::from_eir_expr(index) {
                    Ok(i) => i,
                    Err(_) => {
                        return Err(DriverPlaceError::UnsupportedExpr);
                    },
                };
                Ok(
                    DriverPlace::IndexedPartSelect {
                        base: Box::new(b),
                        index: i,
                        width: DriverBound::from_eir_bound(width),
                    },
                )
            },
            EirPlace::Index { base, index } => {
                let b = self.resolve_place(base)?;
                let i = match DriverExpr::from_eir_expr(index) {
                    Ok(i) => i,
                    Err(_) => {
                        return Err(DriverPlaceError::UnsupportedExpr);
                    },
                };
                Ok(DriverPlace::Index { base: Box::new(b), index: i })
            },
        }
    }

    fn ident_place(&self, name: &str) -> (r: Result<DriverPlace, DriverPlaceError>)
        requires
            self.objects.wf(),
        ensures
            match key_position(self.objects@.keys, (self.module@, name@)) {
                Some(i) => r matches Ok(DriverPlace::Object(o)) && o.id == ObjectId(i as usize)
                    && o.name@ == name@,
                None => r matches Err(DriverPlaceError::UnknownObject { module: m, name: n })
                    && m@ == self.module@ && n@ == name@,
            },
    {
        match self.objects.object(self.module.as_str(), name) {
            Some(object) => Ok(DriverPlace::Object(object)),
            None => Err(
                DriverPlaceError::UnknownObject { module: self.module.clone(), name: name.to_owned() },
            ),
        }
    }
}

/// The name at the root of an elaborated place.
pub open spec fn root_name(p: EirPlace) -> Seq<char>
    decreases p,
{
    match p {
        EirPlace::Ident(name) => name@,
        EirPlace::Slice { base, .. } => root_name(*base),
        EirPlace::IndexedPartSelect { base, .. } => root_name(*base),
        EirPlace::Index { base, .. } => root_name(*base),
    }
}

} // verus!

verus! {

/// Two places have the same structure, names, identities, bounds and
/// indexes.
pub open spec fn same_place(a: DriverPlace, b: DriverPlace) -> bool
    decreases a,
{
    match a {
        DriverPlace::Ident(n) => b matches DriverPlace::Ident(m) && n@ == m@,
        DriverPlace::Object(o) => b matches DriverPlace::Object(p) && o.id == p.id && o.name@
            == p.name@,
        DriverPlace::Slice { base, range } => b matches DriverPlace::Slice { base: b2, range: r2 }
            && same_place(*base, *b2) && range@ == r2@,
        DriverPlace::IndexedPartSelect { base, index, width } => b matches DriverPlace::IndexedPartSelect {
            base: b2,
            index: i2,
            width: w2,
        } && same_place(*base, *b2) && same_driver_expr(index, i2) && width@ == w2@,
        DriverPlace::Index { base, index } => b matches DriverPlace::Index { base: b2, index: i2 }
            && same_place(*base, *b2) && same_driver_expr(index, i2),
        DriverPlace::Expr(e) => b matches DriverPlace::Expr(f) && same_driver_expr(e, f),
    }
}

impl DriverPlace {
    /// The two places are the same.
    pub fn same_as(&self, other: &Self) -> (r: bool)
        ensures
            r == same_place(*self, *other),
        decreases self,
    {
        match (self, other) {
            (DriverPlace::Ident(n), DriverPlace::Ident(m)) => str_eq(n.as_str(), m.as_str()),
            (DriverPlace::Object(o), DriverPlace::Object(p)) => o.id == p.id && str_eq(
                o.name.as_str(),
                p.name.as_str(),
            ),
            (DriverPlace::Slice { base, range }, DriverPlace::Slice { base: b2, range: r2 }) => {
                base.same_as(b2) && range.same_as(r2)
            },
            (
                DriverPlace::IndexedPartSelect { base, index, width },
                DriverPlace::IndexedPartSelect { base: b2, index: i2, width: w2 },
            ) => base.same_as(b2) && index.same_as(i2) && width.same_as(w2),
            (DriverPlace::Index { base, index }, DriverPlace::Index { base: b2, index: i2 }) => {
                base.same_as(b2) && index.same_as(i2)
            },
            (DriverPlace::Expr(e), DriverPlace::Expr(f)) => e.same_as(f),
            _ => false,
        }
    }
}

} // verus!

verus! {

// ---------------------------------------------------------------------------
// Sameness is an equivalence; copies
// ---------------------------------------------------------------------------

/// Every expression is the same as itself.
pub proof fn lemma_same_driver_expr_reflexive(a: DriverExpr)
    ensures
        same_driver_expr(a, a),
    decreases a,
{
    match a {
        DriverExpr::Unary { expr, .. } => lemma_same_driver_expr_reflexive(*expr),
        DriverExpr::Binary { left, right, .. } => {
            lemma_same_driver_expr_reflexive(*left);
            lemma_same_driver_expr_reflexive(*right);
        },
        DriverExpr::Mux { cond, then_value, else_value } => {
            lemma_same_driver_expr_reflexive(*cond);
            lemma_same_driver_expr_reflexive(*then_value);
            lemma_same_driver_expr_reflexive(*else_value);
        },
        DriverExpr::Concat(parts) => {
            assert forall|i: int| 0 <= i < parts.len() implies same_driver_expr(
                #[trigger] parts@[i],
                parts@[i],
            ) by {
                assert(decreases_to!(a => parts@[i]));
                lemma_same_driver_expr_reflexive(parts@[i]);
            }
        },
        DriverExpr::Slice { value, .. } => lemma_same_driver_expr_reflexive(*value),
        DriverExpr::IndexedPartSelect { value, index, .. } => {
            lemma_same_driver_expr_reflexive(*value);
            lemma_same_driver_expr_reflexive(*index);
        },
        DriverExpr::Index { value, index } => {
            lemma_same_driver_expr_reflexive(*value);
            lemma_same_driver_expr_reflexive(*index);
        },
        DriverExpr::Call { args, .. } => {
            assert forall|i: int| 0 <= i < args.len() implies same_driver_expr(
                #[trigger] args@[i],
                args@[i],
            ) by {
                assert(decreases_to!(a => args@[i]));
                lemma_same_driver_expr_reflexive(args@[i]);
            }
        },
        _ => {},
    }
}

/// Sameness of expressions is symmetric.
pub proof fn lemma_same_driver_expr_symmetric(a: DriverExpr, b: DriverExpr)
    requires
        same_driver_expr(a, b),
    ensures
        same_driver_expr(b, a),
    decreases a,
{
    match (a, b) {
        (DriverExpr::Unary { expr: x, .. }, DriverExpr::Unary { expr: y, .. }) => {
            lemma_same_driver_expr_symmetric(*x, *y);
        },
        (DriverExpr::Binary { left: l1, right: r1, .. }, DriverExpr::Binary { left: l2, right: r2, .. }) => {
            lemma_same_driver_expr_symmetric(*l1, *l2);
            lemma_same_driver_expr_symmetric(*r1, *r2);
        },
        (
            DriverExpr::Mux { cond: c1, then_value: t1, else_value: e1 },
            DriverExpr::Mux { cond: c2, then_value: t2, else_value: e2 },
        ) => {
            lemma_same_driver_expr_symmetric(*c1, *c2);
            lemma_same_driver_expr_symmetric(*t1, *t2);
            lemma_same_driver_expr_symmetric(*e1, *e2);
        },
        (DriverExpr::Concat(p1), DriverExpr::Concat(p2)) => {
            assert forall|i: int| 0 <= i < p2.len() implies same_driver_expr(#[trigger] p2@[i], p1@[i]) by {
                assert(decreases_to!(a => p1@[i]));
                lemma_same_driver_expr_symmetric(p1@[i], p2@[i]);
            }
        },
        (DriverExpr::Slice { value: v1, .. }, DriverExpr::Slice { value: v2, .. }) => {
            lemma_same_driver_expr_symmetric(*v1, *v2);
        },
        (
            DriverExpr::IndexedPartSelect { value: v1, index: i1, .. },
            DriverExpr::IndexedPartSelect { value: v2, index: i2, .. },
        ) => {
            lemma_same_driver_expr_symmetric(*v1, *v2);
            lemma_same_driver_expr_symmetric(*i1, *i2);
        },
        (DriverExpr::Index { value: v1, index: i1 }, DriverExpr::Index { value: v2, index: i2 }) => {
            lemma_same_driver_expr_symmetric(*v1, *v2);
            lemma_same_driver_expr_symmetric(*i1, *i2);
        },
        (DriverExpr::Call { args: a1, .. }, DriverExpr::Call { args: a2, .. }) => {
            assert forall|i: int| 0 <= i < a2.len() implies same_driver_expr(#[trigger] a2@[i], a1@[i]) by {
                assert(decreases_to!(a => a1@[i]));
                lemma_same_driver_expr_symmetric(a1@[i], a2@[i]);
            }
        },
        _ => {},
    }
}

/// Sameness of expressions is transitive.
pub proof fn lemma_same_driver_expr_transitive(a: DriverExpr, b: DriverExpr, c: DriverExpr)
    requires
        same_driver_expr(a, b),
        same_driver_expr(b, c),
    ensures
        same_driver_expr(a, c),
    decreases a,
{
    match (a, b, c) {
        (
            DriverExpr::Unary { expr: x, .. },
            DriverExpr::Unary { expr: y, .. },
            DriverExpr::Unary { expr: z, .. },
        ) => {
            lemma_same_driver_expr_transitive(*x, *y, *z);
        },
        (
            DriverExpr::Binary { left: l1, right: r1, .. },
            DriverExpr::Binary { left: l2, right: r2, .. },
            DriverExpr::Binary { left: l3, right: r3, .. },
        ) => {
            lemma_same_driver_expr_transitive(*l1, *l2, *l3);
            lemma_same_driver_expr_transitive(*r1, *r2, *r3);
        },
        (
            DriverExpr::Mux { cond: c1, then_value: t1, else_value: e1 },
            DriverExpr::Mux { cond: c2, then_value: t2, else_value: e2 },
            DriverExpr::Mux { cond: c3, then_value: t3, else_value: e3 },
        ) => {
            lemma_same_driver_expr_transitive(*c1, *c2, *c3);
            lemma_same_driver_expr_transitive(*t1, *t2, *t3);
            lemma_same_driver_expr_transitive(*e1, *e2, *e3);
        },
        (DriverExpr::Concat(p1), DriverExpr::Concat(p2), DriverExpr::Concat(p3)) => {
            assert forall|i: int| 0 <= i < p1.len() implies same_driver_expr(#[trigger] p1@[i], p3@[i]) by {
                assert(decreases_to!(a => p1@[i]));
                lemma_same_driver_expr_transitive(p1@[i], p2@[i], p3@[i]);
            }
        },
        (
            DriverExpr::Slice { value: v1, .. },
            DriverExpr::Slice { value: v2, .. },
            DriverExpr::Slice { value: v3, .. },
        ) => {
            lemma_same_driver_expr_transitive(*v1, *v2, *v3);
        },
        (
            DriverExpr::IndexedPartSelect { value: v1, index: i1, .. },
            DriverExpr::IndexedPartSelect { value: v2, index: i2, .. },
            DriverExpr::IndexedPartSelect { value: v3, index: i3, .. },
        ) => {
            lemma_same_driver_expr_transitive(*v1, *v2, *v3);
            lemma_same_driver_expr_transitive(*i1, *i2, *i3);
        },
        (
            DriverExpr::Index { value: v1, index: i1 },
            DriverExpr::Index { value: v2, index: i2 },
            DriverExpr::Index { value: v3, index: i3 },
        ) => {
            lemma_same_driver_expr_transitive(*v1, *v2, *v3);
            lemma_same_driver_expr_transitive(*i1, *i2, *i3);
        },
        (DriverExpr::Call { args: a1, .. }, DriverExpr::Call { args: a2, .. }, DriverExpr::Call { args: a3, .. }) => {
            assert forall|i: int| 0 <= i < a1.len() implies same_driver_expr(#[trigger] a1@[i], a3@[i]) by {
                assert(decreases_to!(a => a1@[i]));
                lemma_same_driver_expr_transitive(a1@[i], a2@[i], a3@[i]);
            }
        },
        _ => {},
    }
}

/// Every place is the same as itself.
pub proof fn lemma_same_place_reflexive(a: DriverPlace)
    ensures
        same_place(a, a),
    decreases a,
{
    match a {
        DriverPlace::Slice { base, .. } => lemma_same_place_reflexive(*base),
        DriverPlace::IndexedPartSelect { base, index, .. } => {
            lemma_same_place_reflexive(*base);
            lemma_same_driver_expr_reflexive(index);
        },
        DriverPlace::Index { base, index } => {
            lemma_same_place_reflexive(*base);
            lemma_same_driver_expr_reflexive(index);
        },
        DriverPlace::Expr(e) => lemma_same_driver_expr_reflexive(e),
        _ => {},
    }
}

/// Sameness of places is symmetric.
pub proof fn lemma_same_place_symmetric(a: DriverPlace, b: DriverPlace)
    requires
        same_place(a, b),
    ensures
        same_place(b, a),
    decreases a,
{
    match (a, b) {
        (DriverPlace::Slice { base: x, .. }, DriverPlace::Slice { base: y, .. }) => {
            lemma_same_place_symmetric(*x, *y);
        },
        (
            DriverPlace::IndexedPartSelect { base: x, index: i, .. },
            DriverPlace::IndexedPartSelect { base: y, index: j, .. },
        ) => {
            lemma_same_place_symmetric(*x, *y);
            lemma_same_driver_expr_symmetric(i, j);
        },
        (DriverPlace::Index { base: x, index: i }, DriverPlace::Index { base: y, index: j }) => {
            lemma_same_place_symmetric(*x, *y);
            lemma_same_driver_expr_symmetric(i, j);
        },
        (DriverPlace::Expr(e), DriverPlace::Expr(f)) => lemma_same_driver_expr_symmetric(e, f),
        _ => {},
    }
}

/// Sameness of places is transitive.
pub proof fn lemma_same_place_transitive(a: DriverPlace, b: DriverPlace, c: DriverPlace)
    requires
        same_place(a, b),
        same_place(b, c),
    ensures
        same_place(a, c),
    decreases a,
{
    match (a, b, c) {
        (
            DriverPlace::Slice { base: x, .. },
            DriverPlace::Slice { base: y, .. },
            DriverPlace::Slice { base: z, .. },
        ) => {
            lemma_same_place_transitive(*x, *y, *z);
        },
        (
            DriverPlace::IndexedPartSelect { base: x, index: i, .. },
            DriverPlace::IndexedPartSelect { base: y, index: j, .. },
            DriverPlace::IndexedPartSelect { base: z, index: k, .. },
        ) => {
            lemma_same_place_transitive(*x, *y, *z);
            lemma_same_driver_expr_transitive(i, j, k);
        },
        (
            DriverPlace::Index { base: x, index: i },
            DriverPlace::Index { base: y, index: j },
            DriverPlace::Index { base: z, index: k },
        ) => {
            lemma_same_place_transitive(*x, *y, *z);
            lemma_same_driver_expr_transitive(i, j, k);
        },
        (DriverPlace::Expr(e), DriverPlace::Expr(f), DriverPlace::Expr(g)) => {
            lemma_same_driver_expr_transitive(e, f, g);
        },
        _ => {},
    }
}

impl DriverExpr {
    /// A copy of the expression.
    pub fn copy(&self) -> (r: Self)
        ensures
            same_driver_expr(r, *self),
            same_driver_expr(*self, r),
        decreases self,
    {
        let r = match self {
            DriverExpr::Ident(name) => DriverExpr::Ident(name.clone()),
            DriverExpr::Int(v) => DriverExpr::Int(*v),
            DriverExpr::Bool(v) => DriverExpr::Bool(*v),
            DriverExpr::Str(v) => DriverExpr::Str(v.clone()),
            DriverExpr::Zero => DriverExpr::Zero,
            DriverExpr::HighZ => DriverExpr::HighZ,
            DriverExpr::Unary { op, expr } => DriverExpr::Unary { op: *op, expr: Box::new((**expr).copy()) },
            DriverExpr::Binary { op, left, right } => DriverExpr::Binary {
                op: *op,
                left: Box::new((**left).copy()),
                right: Box::new((**right).copy()),
            },
            DriverExpr::Mux { cond, then_value, else_value } => DriverExpr::Mux {
                cond: Box::new((**cond).copy()),
                then_value: Box::new((**then_value).copy()),
                else_value: Box::new((**else_value).copy()),
            },
            DriverExpr::Concat(parts) => DriverExpr::Concat(Self::copy_all(parts)),
            DriverExpr::Slice { value, range } => DriverExpr::Slice {
                value: Box::new((**value).copy()),
                range: range.copy(),
            },
            DriverExpr::IndexedPartSelect { value, index, width } => DriverExpr::IndexedPartSelect {
                value: Box::new((**value).copy()),
                index: Box::new((**index).copy()),
                width: width.copy(),
            },
            DriverExpr::Index { value, index } => DriverExpr::Index {
                value: Box::new((**value).copy()),
                index: Box::new((**index).copy()),
            },
            DriverExpr::Call { name, args } => DriverExpr::Call { name: name.clone(), args: Self::copy_all(args) },
        };
        r
    }

    fn copy_all(v: &Vec<DriverExpr>) -> (r: Vec<DriverExpr>)
        ensures
            r.len() == v.len(),
            forall|i: int| 0 <= i < v.len() ==> same_driver_expr(#[trigger] r@[i], v@[i]),
            forall|i: int| 0 <= i < v.len() ==> same_driver_expr(#[trigger] v@[i], r@[i]),
        decreases v,
    {
        let mut out: Vec<DriverExpr> = Vec::new();
        let mut i: usize = 0;
        while i < v.len()
            invariant
                i <= v.len(),
                out.len() == i,
                forall|j: int| 0 <= j < i ==> same_driver_expr(#[trigger] out@[j], v@[j]),
                forall|j: int| 0 <= j < i ==> same_driver_expr(#[trigger] v@[j], out@[j]),
            decreases v.len() - i,
        {
            assert(decreases_to!(v => v@[i as int]));
            out.push(v[i].copy());
            i = i + 1;
        }
        out
    }
}

impl DriverPlace {
    /// A copy of the place.
    pub fn copy(&self) -> (r: Self)
        ensures
            same_place(r, *self),
            same_place(*self, r),
        decreases self,
    {
        match self {
            DriverPlace::Ident(name) => DriverPlace::Ident(name.clone()),
            DriverPlace::Object(o) => DriverPlace::Object(DriverObject { id: o.id, name: o.name.clone() }),
            DriverPlace::Slice { base, range } => DriverPlace::Slice {
                base: Box::new((**base).copy()),
                range: range.copy(),
            },
            DriverPlace::IndexedPartSelect { base, index, width } => DriverPlace::IndexedPartSelect {
                base: Box::new((**base).copy()),
                index: index.copy(),
                width: width.copy(),
            },
            DriverPlace::Index { base, index } => DriverPlace::Index {
                base: Box::new((**base).copy()),
                index: index.copy(),
            },
            DriverPlace::Expr(e) => DriverPlace::Expr(e.copy()),
        }
    }
}

} // verus!
