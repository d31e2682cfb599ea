//! Elaborated expressions and bit bounds.
use crate::text::{chars_of, str_eq, int_digits, nat_digits, parse_u64, parse_u64_spec, push_all, u64_digits};
use vstd::prelude::*;

verus! {

/// A unary operator.
#[derive(Clone, Copy, Debug, PartialEq, Eq, Structural)]
pub enum EirUnaryOp {
    Neg,
    Not,
}

/// A binary operator.
#[derive(Clone, Copy, Debug, PartialEq, Eq, Structural)]
pub enum EirBinaryOp {
    OrOr,
    AndAnd,
    Eq,
    NotEq,
    Lt,
    LtEq,
    Gt,
    GtEq,
    Add,
    Sub,
    Mul,
    Div,
    Rem,
    Shl,
    BitAnd,
    BitOr,
    BitXor,
}

/// How the arms of a select are chosen.
#[derive(Clone, Copy, Debug, PartialEq, Eq, Structural)]
pub enum EirSelectMode {
    Priority,
    Unique,
}

/// A bit bound: the text it was written as, and its expression.
#[derive(Debug)]
pub struct EirBound {
    pub source: String,
    pub expr: Box<EirExpr>,
}

/// An elaborated expression.
#[derive(Debug)]
pub enum EirExpr {
    Ident(String),
    Int(u64),
    Bool(bool),
    Str(String),
    Zero,
    HighZ,
    Unary { op: EirUnaryOp, expr: Box<EirExpr> },
    Binary { op: EirBinaryOp, left: Box<EirExpr>, right: Box<EirExpr> },
    Mux { cond: Box<EirExpr>, then_value: Box<EirExpr>, else_value: Box<EirExpr> },
    Select { mode: EirSelectMode, arms: Vec<EirSelectArm>, default: Box<EirExpr> },
    Concat(Vec<EirExpr>),
    Slice { value: Box<EirExpr>, high: EirBound, low: EirBound },
    IndexedPartSelect { value: Box<EirExpr>, index: Box<EirExpr>, width: EirBound },
    Index { value: Box<EirExpr>, index: Box<EirExpr> },
    Call { name: String, args: Vec<EirExpr> },
    Unsupported { message: String },
}

/// One guarded arm of a select.
#[derive(Debug)]
pub struct EirSelectArm {
    pub guard: EirExpr,
    pub value: EirExpr,
}


// ---------------------------------------------------------------------------
// Structural sameness
// ---------------------------------------------------------------------------

/// Two expressions have the same structure and the same leaves; vectors of
/// subexpressions are compared element by element.
pub open spec fn same_expr(a: EirExpr, b: EirExpr) -> bool
    decreases a,
{
    match a {
        EirExpr::Unary { op, expr } => b matches EirExpr::Unary { op: op2, expr: e2 } && op == op2
            && same_expr(*expr, *e2),
        EirExpr::Binary { op, left, right } => b matches EirExpr::Binary {
            op: op2,
            left: l2,
            right: r2,
        } && op == op2 && same_expr(*left, *l2) && same_expr(*right, *r2),
        EirExpr::Mux { cond, then_value, else_value } => b matches EirExpr::Mux {
            cond: c2,
            then_value: t2,
            else_value: e2,
        } && same_expr(*cond, *c2) && same_expr(*then_value, *t2) && same_expr(*else_value, *e2),
        EirExpr::Select { mode, arms, default } => b matches EirExpr::Select {
            mode: m2,
            arms: a2,
            default: d2,
        } && mode == m2 && arms.len() == a2.len() && (forall|i: int|
            0 <= i < arms.len() ==> same_expr(#[trigger] arms@[i].guard, a2@[i].guard)
                && same_expr(arms@[i].value, a2@[i].value)) && same_expr(*default, *d2),
        EirExpr::Concat(parts) => b matches EirExpr::Concat(p2) && parts.len() == p2.len() && (
        forall|i: int| 0 <= i < parts.len() ==> same_expr(#[trigger] parts@[i], p2@[i])),
        EirExpr::Slice { value, high, low } => b matches EirExpr::Slice {
            value: v2,
            high: h2,
            low: l2,
        } && same_expr(*value, *v2) && high.source@ == h2.source@ && same_expr(*high.expr, *h2.expr)
            && low.source@ == l2.source@ && same_expr(*low.expr, *l2.expr),
        EirExpr::IndexedPartSelect { value, index, width } => b matches EirExpr::IndexedPartSelect {
            value: v2,
            index: i2,
            width: w2,
        } && same_expr(*value, *v2) && same_expr(*index, *i2) && width.source@ == w2.source@
            && same_expr(*width.expr, *w2.expr),
        EirExpr::Index { value, index } => b matches EirExpr::Index { value: v2, index: i2 }
            && same_expr(*value, *v2) && same_expr(*index, *i2),
        EirExpr::Call { name, args } => b matches EirExpr::Call { name: n2, args: a2 } && name@
            == n2@ && args.len() == a2.len() && (forall|i: int|
            0 <= i < args.len() ==> same_expr(#[trigger] args@[i], a2@[i])),
        EirExpr::Ident(name) => b matches EirExpr::Ident(n2) && name@ == n2@,
        EirExpr::Str(value) => b matches EirExpr::Str(v2) && value@ == v2@,
        EirExpr::Unsupported { message } => b matches EirExpr::Unsupported { message: m2 }
            && message@ == m2@,
        _ => a == b,
    }
}

/// Structural sameness does not depend on the order of the two expressions.
pub proof fn lemma_same_expr_symmetric(a: EirExpr, b: EirExpr)
    ensures
        same_expr(a, b) == same_expr(b, a),
    decreases a,
{
    match a {
        EirExpr::Unary { expr, .. } => {
            if let EirExpr::Unary { expr: e2, .. } = b {
                lemma_same_expr_symmetric(*expr, *e2);
            }
        },
        EirExpr::Binary { left, right, .. } => {
            if let EirExpr::Binary { left: l2, right: r2, .. } = b {
                lemma_same_expr_symmetric(*left, *l2);
                lemma_same_expr_symmetric(*right, *r2);
            }
        },
        EirExpr::Mux { cond, then_value, else_value } => {
            if let EirExpr::Mux { cond: c2, then_value: t2, else_value: e2 } = b {
                lemma_same_expr_symmetric(*cond, *c2);
                lemma_same_expr_symmetric(*then_value, *t2);
                lemma_same_expr_symmetric(*else_value, *e2);
            }
        },
        EirExpr::Select { arms, default, .. } => {
            if let EirExpr::Select { arms: a2, default: d2, .. } = b {
                lemma_same_expr_symmetric(*default, *d2);
                if arms.len() == a2.len() {
                    assert forall|i: int| 0 <= i < arms.len() implies (same_expr(
                        #[trigger] arms@[i].guard,
                        a2@[i].guard,
                    ) == same_expr(a2@[i].guard, arms@[i].guard) && same_expr(arms@[i].value, a2@[i].value)
                        == same_expr(a2@[i].value, arms@[i].value)) by {
                        assert(decreases_to!(arms => arms@[i].guard));
                        lemma_same_expr_symmetric(arms@[i].guard, a2@[i].guard);
                        lemma_same_expr_symmetric(arms@[i].value, a2@[i].value);
                    }
                }
            }
        },
        EirExpr::Concat(parts) => {
            if let EirExpr::Concat(p2) = b {
                if parts.len() == p2.len() {
                    assert forall|i: int| 0 <= i < parts.len() implies same_expr(
                        #[trigger] parts@[i],
                        p2@[i],
                    ) == same_expr(p2@[i], parts@[i]) by {
                        assert(decreases_to!(parts => parts@[i]));
                        lemma_same_expr_symmetric(parts@[i], p2@[i]);
                    }
                }
            }
        },
        EirExpr::Slice { value, high, low } => {
            if let EirExpr::Slice { value: v2, high: h2, low: l2 } = b {
                lemma_same_expr_symmetric(*value, *v2);
                lemma_same_expr_symmetric(*high.expr, *h2.expr);
                lemma_same_expr_symmetric(*low.expr, *l2.expr);
            }
        },
        EirExpr::IndexedPartSelect { value, index, width } => {
            if let EirExpr::IndexedPartSelect { value: v2, index: i2, width: w2 } = b {
                lemma_same_expr_symmetric(*value, *v2);
                lemma_same_expr_symmetric(*index, *i2);
                lemma_same_expr_symmetric(*width.expr, *w2.expr);
            }
        },
        EirExpr::Index { value, index } => {
            if let EirExpr::Index { value: v2, index: i2 } = b {
                lemma_same_expr_symmetric(*value, *v2);
                lemma_same_expr_symmetric(*index, *i2);
            }
        },
        EirExpr::Call { args, .. } => {
            if let EirExpr::Call { args: a2, .. } = b {
                if args.len() == a2.len() {
                    assert forall|i: int| 0 <= i < args.len() implies same_expr(
                        #[trigger] args@[i],
                        a2@[i],
                    ) == same_expr(a2@[i], args@[i]) by {
                        assert(decreases_to!(args => args@[i]));
                        lemma_same_expr_symmetric(args@[i], a2@[i]);
                    }
                }
            }
        },
        _ => {},
    }
}

/// Two bounds have the same text and structurally the same expression.
pub open spec fn same_bound(a: EirBound, b: EirBound) -> bool {
    a.source@ == b.source@ && same_expr(*a.expr, *b.expr) && same_expr(*b.expr, *a.expr)
}

// ---------------------------------------------------------------------------
// Fact keys
// ---------------------------------------------------------------------------

/// The name of a unary operator in fact keys.
pub open spec fn unary_fact_name(op: EirUnaryOp) -> Seq<char> {
    match op {
        EirUnaryOp::Neg => "neg"@,
        EirUnaryOp::Not => "not"@,
    }
}

/// The name of a binary operator in fact keys.
pub open spec fn binary_fact_name(op: EirBinaryOp) -> Seq<char> {
    match op {
        EirBinaryOp::OrOr => "logic_or"@,
        EirBinaryOp::AndAnd => "logic_and"@,
        EirBinaryOp::Eq => "eq"@,
        EirBinaryOp::NotEq => "not_eq"@,
        EirBinaryOp::Lt => "lt"@,
        EirBinaryOp::LtEq => "lt_eq"@,
        EirBinaryOp::Gt => "gt"@,
        EirBinaryOp::GtEq => "gt_eq"@,
        EirBinaryOp::Add => "add"@,
        EirBinaryOp::Sub => "sub"@,
        EirBinaryOp::Mul => "mul"@,
        EirBinaryOp::Div => "div"@,
        EirBinaryOp::Rem => "rem"@,
        EirBinaryOp::Shl => "shl"@,
        EirBinaryOp::BitAnd => "bit_and"@,
        EirBinaryOp::BitOr => "bit_or"@,
        EirBinaryOp::BitXor => "bit_xor"@,
    }
}

/// `name(a)`.
pub open spec fn call1(name: Seq<char>, a: Seq<char>) -> Seq<char> {
    name + seq!['('] + a + seq![')']
}

/// `name(a,b)`.
pub open spec fn call2(name: Seq<char>, a: Seq<char>, b: Seq<char>) -> Seq<char> {
    name + seq!['('] + a + seq![','] + b + seq![')']
}

/// `name(a,b,c)`.
pub open spec fn call3(name: Seq<char>, a: Seq<char>, b: Seq<char>, c: Seq<char>) -> Seq<char> {
    name + seq!['('] + a + seq![','] + b + seq![','] + c + seq![')']
}

/// The stable text by which an expression is recognised in facts.
pub open spec fn fact_key(e: EirExpr) -> Seq<char>
    decreases e,
{
    match e {
        EirExpr::Ident(name) => name@,
        EirExpr::Int(value) => nat_digits(value as nat),
        EirExpr::Bool(value) => if value {
            "true"@
        } else {
            "false"@
        },
        EirExpr::Str(value) => call1("str"@, value@),
        EirExpr::Zero => "zero"@,
        EirExpr::HighZ => "z"@,
        EirExpr::Unary { op, expr } => call1(unary_fact_name(op), fact_key(*expr)),
        EirExpr::Binary { op, left, right } => call2(
            binary_fact_name(op),
            fact_key(*left),
            fact_key(*right),
        ),
        EirExpr::Mux { cond, then_value, else_value } => call3(
            "mux"@,
            fact_key(*cond),
            fact_key(*then_value),
            fact_key(*else_value),
        ),
        EirExpr::Select { mode, arms, default } => {
            let name = match mode {
                EirSelectMode::Priority => "select_priority"@,
                EirSelectMode::Unique => "select_unique"@,
            };
            name + seq!['('] + arm_keys(arms@) + seq![';'] + fact_key(*default) + seq![')']
        },
        EirExpr::Concat(parts) => call1("concat"@, expr_keys(parts@)),
        EirExpr::Slice { value, high, low } => call3(
            "slice"@,
            fact_key(*value),
            fact_key(*high.expr),
            fact_key(*low.expr),
        ),
        EirExpr::IndexedPartSelect { value, index, width } => call3(
            "part"@,
            fact_key(*value),
            fact_key(*index),
            fact_key(*width.expr),
        ),
        EirExpr::Index { value, index } => call2("idx"@, fact_key(*value), fact_key(*index)),
        EirExpr::Call { name, args } => call2("call"@, name@, expr_keys(args@)),
        EirExpr::Unsupported { message } => call1("unsupported"@, message@),
    }
}

/// The fact keys of expressions, separated by commas.
pub open spec fn expr_keys(parts: Seq<EirExpr>) -> Seq<char>
    decreases parts,
{
    if parts.len() == 0 {
        Seq::empty()
    } else if parts.len() == 1 {
        fact_key(parts[0])
    } else {
        expr_keys(parts.drop_last()) + seq![','] + fact_key(parts.last())
    }
}

/// The fact keys of select arms, `guard=>value`, separated by commas.
pub open spec fn arm_keys(arms: Seq<EirSelectArm>) -> Seq<char>
    decreases arms,
{
    if arms.len() == 0 {
        Seq::empty()
    } else if arms.len() == 1 {
        fact_key(arms[0].guard) + "=>"@ + fact_key(arms[0].value)
    } else {
        arm_keys(arms.drop_last()) + seq![','] + fact_key(arms.last().guard) + "=>"@ + fact_key(
            arms.last().value,
        )
    }
}

/// Structural sameness is transitive.
pub proof fn lemma_same_expr_transitive(a: EirExpr, b: EirExpr, c: EirExpr)
    requires
        same_expr(a, b),
        same_expr(b, c),
    ensures
        same_expr(a, c),
    decreases a,
{
    match a {
        EirExpr::Unary { expr, .. } => {
            if let EirExpr::Unary { expr: e2, .. } = b {
                if let EirExpr::Unary { expr: e3, .. } = c {
                    lemma_same_expr_transitive(*expr, *e2, *e3);
                }
            }
        },
        EirExpr::Binary { left, right, .. } => {
            if let EirExpr::Binary { left: l2, right: r2, .. } = b {
                if let EirExpr::Binary { left: l3, right: r3, .. } = c {
                    lemma_same_expr_transitive(*left, *l2, *l3);
                    lemma_same_expr_transitive(*right, *r2, *r3);
                }
            }
        },
        EirExpr::Mux { cond, then_value, else_value } => {
            if let EirExpr::Mux { cond: c2, then_value: t2, else_value: e2 } = b {
                if let EirExpr::Mux { cond: c3, then_value: t3, else_value: e3 } = c {
                    lemma_same_expr_transitive(*cond, *c2, *c3);
                    lemma_same_expr_transitive(*then_value, *t2, *t3);
                    lemma_same_expr_transitive(*else_value, *e2, *e3);
                }
            }
        },
        EirExpr::Select { arms, default, .. } => {
            if let EirExpr::Select { arms: a2, default: d2, .. } = b {
                if let EirExpr::Select { arms: a3, default: d3, .. } = c {
                    lemma_same_expr_transitive(*default, *d2, *d3);
                    assert forall|i: int| 0 <= i < arms.len() implies same_expr(
                        #[trigger] arms@[i].guard,
                        a3@[i].guard,
                    ) && same_expr(arms@[i].value, a3@[i].value) by {
                        assert(decreases_to!(arms => arms@[i].guard));
                        assert(same_expr(arms@[i].guard, a2@[i].guard));
                        assert(same_expr(a2@[i].guard, a3@[i].guard));
                        lemma_same_expr_transitive(arms@[i].guard, a2@[i].guard, a3@[i].guard);
                        lemma_same_expr_transitive(arms@[i].value, a2@[i].value, a3@[i].value);
                    }
                }
            }
        },
        EirExpr::Concat(parts) => {
            if let EirExpr::Concat(p2) = b {
                if let EirExpr::Concat(p3) = c {
                    assert forall|i: int| 0 <= i < parts.len() implies same_expr(
                        #[trigger] parts@[i],
                        p3@[i],
                    ) by {
                        assert(decreases_to!(parts => parts@[i]));
                        assert(same_expr(parts@[i], p2@[i]));
                        assert(same_expr(p2@[i], p3@[i]));
                        lemma_same_expr_transitive(parts@[i], p2@[i], p3@[i]);
                    }
                }
            }
        },
        EirExpr::Slice { value, high, low } => {
            if let EirExpr::Slice { value: v2, high: h2, low: l2 } = b {
                if let EirExpr::Slice { value: v3, high: h3, low: l3 } = c {
                    lemma_same_expr_transitive(*value, *v2, *v3);
                    lemma_same_expr_transitive(*high.expr, *h2.expr, *h3.expr);
                    lemma_same_expr_transitive(*low.expr, *l2.expr, *l3.expr);
                }
            }
        },
        EirExpr::IndexedPartSelect { value, index, width } => {
            if let EirExpr::IndexedPartSelect { value: v2, index: i2, width: w2 } = b {
                if let EirExpr::IndexedPartSelect { value: v3, index: i3, width: w3 } = c {
                    lemma_same_expr_transitive(*value, *v2, *v3);
                    lemma_same_expr_transitive(*index, *i2, *i3);
                    lemma_same_expr_transitive(*width.expr, *w2.expr, *w3.expr);
                }
            }
        },
        EirExpr::Index { value, index } => {
            if let EirExpr::Index { value: v2, index: i2 } = b {
                if let EirExpr::Index { value: v3, index: i3 } = c {
                    lemma_same_expr_transitive(*value, *v2, *v3);
                    lemma_same_expr_transitive(*index, *i2, *i3);
                }
            }
        },
        EirExpr::Call { args, .. } => {
            if let EirExpr::Call { args: a2, .. } = b {
                if let EirExpr::Call { args: a3, .. } = c {
                    assert forall|i: int| 0 <= i < args.len() implies same_expr(
                        #[trigger] args@[i],
                        a3@[i],
                    ) by {
                        assert(decreases_to!(args => args@[i]));
                        assert(same_expr(args@[i], a2@[i]));
                        assert(same_expr(a2@[i], a3@[i]));
                        lemma_same_expr_transitive(args@[i], a2@[i], a3@[i]);
                    }
                }
            }
        },
        _ => {},
    }
}

/// Expressions with the same structure and leaves have the same fact key.
pub proof fn lemma_same_expr_fact_key(a: EirExpr, b: EirExpr)
    requires
        same_expr(a, b),
    ensures
        fact_key(a) == fact_key(b),
    decreases a, 1nat,
{
    match a {
        EirExpr::Unary { expr, .. } => {
            if let EirExpr::Unary { expr: e2, .. } = b {
                lemma_same_expr_fact_key(*expr, *e2);
            }
        },
        EirExpr::Binary { left, right, .. } => {
            if let EirExpr::Binary { left: l2, right: r2, .. } = b {
                lemma_same_expr_fact_key(*left, *l2);
                lemma_same_expr_fact_key(*right, *r2);
            }
        },
        EirExpr::Mux { cond, then_value, else_value } => {
            if let EirExpr::Mux { cond: c2, then_value: t2, else_value: e2 } = b {
                lemma_same_expr_fact_key(*cond, *c2);
                lemma_same_expr_fact_key(*then_value, *t2);
                lemma_same_expr_fact_key(*else_value, *e2);
            }
        },
        EirExpr::Select { arms, default, .. } => {
            if let EirExpr::Select { arms: a2, default: d2, .. } = b {
                lemma_same_expr_fact_key(*default, *d2);
                lemma_same_arms_keys(arms@, a2@);
            }
        },
        EirExpr::Concat(parts) => {
            if let EirExpr::Concat(p2) = b {
                lemma_same_exprs_keys(parts@, p2@);
            }
        },
        EirExpr::Slice { value, high, low } => {
            if let EirExpr::Slice { value: v2, high: h2, low: l2 } = b {
                lemma_same_expr_fact_key(*value, *v2);
                lemma_same_expr_fact_key(*high.expr, *h2.expr);
                lemma_same_expr_fact_key(*low.expr, *l2.expr);
            }
        },
        EirExpr::IndexedPartSelect { value, index, width } => {
            if let EirExpr::IndexedPartSelect { value: v2, index: i2, width: w2 } = b {
                lemma_same_expr_fact_key(*value, *v2);
                lemma_same_expr_fact_key(*index, *i2);
                lemma_same_expr_fact_key(*width.expr, *w2.expr);
            }
        },
        EirExpr::Index { value, index } => {
            if let EirExpr::Index { value: v2, index: i2 } = b {
                lemma_same_expr_fact_key(*value, *v2);
                lemma_same_expr_fact_key(*index, *i2);
            }
        },
        EirExpr::Call { args, .. } => {
            if let EirExpr::Call { args: a2, .. } = b {
                lemma_same_exprs_keys(args@, a2@);
            }
        },
        _ => {},
    }
}

proof fn lemma_same_exprs_keys(ps: Seq<EirExpr>, qs: Seq<EirExpr>)
    requires
        ps.len() == qs.len(),
        forall|i: int| 0 <= i < ps.len() ==> same_expr(#[trigger] ps[i], qs[i]),
    ensures
        expr_keys(ps) == expr_keys(qs),
    decreases ps, 0nat,
{
    if ps.len() > 0 {
        lemma_same_expr_fact_key(ps.last(), qs.last());
        if ps.len() > 1 {
            assert(forall|i: int| 0 <= i < ps.drop_last().len() ==> ps.drop_last()[i] == ps[i]);
            assert(forall|i: int| 0 <= i < qs.drop_last().len() ==> qs.drop_last()[i] == qs[i]);
            lemma_same_exprs_keys(ps.drop_last(), qs.drop_last());
        } else {
            lemma_same_expr_fact_key(ps[0], qs[0]);
        }
    }
}

proof fn lemma_same_arms_keys(ps: Seq<EirSelectArm>, qs: Seq<EirSelectArm>)
    requires
        ps.len() == qs.len(),
        forall|i: int|
            0 <= i < ps.len() ==> same_expr(#[trigger] ps[i].guard, qs[i].guard) && same_expr(
                ps[i].value,
                qs[i].value,
            ),
    ensures
        arm_keys(ps) == arm_keys(qs),
    decreases ps, 0nat,
{
    if ps.len() > 0 {
        lemma_same_expr_fact_key(ps.last().guard, qs.last().guard);
        lemma_same_expr_fact_key(ps.last().value, qs.last().value);
        if ps.len() > 1 {
            assert(forall|i: int| 0 <= i < ps.drop_last().len() ==> ps.drop_last()[i] == ps[i]);
            assert(forall|i: int| 0 <= i < qs.drop_last().len() ==> qs.drop_last()[i] == qs[i]);
            lemma_same_arms_keys(ps.drop_last(), qs.drop_last());
        } else {
            lemma_same_expr_fact_key(ps[0].guard, qs[0].guard);
            lemma_same_expr_fact_key(ps[0].value, qs[0].value);
        }
    }
}

fn push_lit(out: &mut Vec<char>, s: &str)
    ensures
        final(out)@ == old(out)@ + s@,
{
    let v = chars_of(s);
    push_all(out, &v);
}

fn push_call_open(out: &mut Vec<char>, name: &str)
    ensures
        final(out)@ == old(out)@ + name@ + seq!['('],
{
    push_lit(out, name);
    out.push('(');
}

impl EirUnaryOp {
    pub fn fact_name(&self) -> (r: &'static str)
        ensures
            r@ == unary_fact_name(*self),
    {
        match self {
            EirUnaryOp::Neg => "neg",
            EirUnaryOp::Not => "not",
        }
    }
}

impl EirBinaryOp {
    pub fn fact_name(&self) -> (r: &'static str)
        ensures
            r@ == binary_fact_name(*self),
    {
        match self {
            EirBinaryOp::OrOr => "logic_or",
            EirBinaryOp::AndAnd => "logic_and",
            EirBinaryOp::Eq => "eq",
            EirBinaryOp::NotEq => "not_eq",
            EirBinaryOp::Lt => "lt",
            EirBinaryOp::LtEq => "lt_eq",
            EirBinaryOp::Gt => "gt",
            EirBinaryOp::GtEq => "gt_eq",
            EirBinaryOp::Add => "add",
            EirBinaryOp::Sub => "sub",
            EirBinaryOp::Mul => "mul",
            EirBinaryOp::Div => "div",
            EirBinaryOp::Rem => "rem",
            EirBinaryOp::Shl => "shl",
            EirBinaryOp::BitAnd => "bit_and",
            EirBinaryOp::BitOr => "bit_or",
            EirBinaryOp::BitXor => "bit_xor",
        }
    }
}

impl EirBound {
    /// A bound with the given text and expression.
    pub fn new(source: &str, expr: EirExpr) -> (r: Self)
        ensures
            r.source@ == source@,
            *r.expr == expr,
    {
        EirBound { source: source.to_owned(), expr: Box::new(expr) }
    }

    /// A bound written as text: a decimal number becomes an integer, any
    /// other text a name.
    pub fn from_source(source: &str) -> (r: Self)
        ensures
            r.source@ == source@,
            match parse_u64_spec(source@) {
                Some(value) => *r.expr == EirExpr::Int(value),
                None => (*r.expr matches EirExpr::Ident(name) && name@ == source@),
            },
    {
        match parse_u64(source) {
            Some(value) => Self::new(source, EirExpr::Int(value)),
            None => Self::new(source, EirExpr::Ident(source.to_owned())),
        }
    }

    /// A bound whose text is the fact key of its expression.
    pub fn from_expr(expr: EirExpr) -> (r: Self)
        ensures
            r.source@ == fact_key(expr),
            *r.expr == expr,
    {
        let key = expr.fact_key();
        EirBound { source: key, expr: Box::new(expr) }
    }

    pub fn source(&self) -> (r: &str)
        ensures
            r@ == self.source@,
    {
        self.source.as_str()
    }

    pub fn expr(&self) -> (r: &EirExpr)
        ensures
            *r == *self.expr,
    {
        &self.expr
    }

    /// The bound is the number one, by expression or by text.
    pub fn is_one(&self) -> (r: bool)
        ensures
            r == (*self.expr == EirExpr::Int(1) || self.source@ == "1"@),
    {
        let by_expr = match &*self.expr {
            EirExpr::Int(value) => *value == 1,
            _ => false,
        };
        by_expr || crate::text::str_eq(self.source.as_str(), "1")
    }
}

impl Clone for EirBound {
    fn clone(&self) -> (r: Self)
        ensures
            same_bound(r, *self),
            same_bound(*self, r),
    {
        EirBound { source: self.source.clone(), expr: Box::new((*self.expr).copy()) }
    }
}

impl EirSelectArm {
    /// A copy of this arm.
    pub fn copy(&self) -> (r: Self)
        ensures
            same_expr(r.guard, self.guard),
            same_expr(r.value, self.value),
            same_expr(self.guard, r.guard),
            same_expr(self.value, r.value),
        decreases self,
    {
        EirSelectArm { guard: self.guard.copy(), value: self.value.copy() }
    }
}

impl Clone for EirSelectArm {
    fn clone(&self) -> (r: Self)
        ensures
            same_expr(r.guard, self.guard),
            same_expr(r.value, self.value),
            same_expr(self.guard, r.guard),
            same_expr(self.value, r.value),
    {
        self.copy()
    }
}

impl EirExpr {
    /// A copy of this expression.
    pub fn copy(&self) -> (r: Self)
        ensures
            same_expr(r, *self),
            same_expr(*self, r),
        decreases self,
    {
        match self {
            EirExpr::Ident(name) => EirExpr::Ident(name.clone()),
            EirExpr::Int(value) => EirExpr::Int(*value),
            EirExpr::Bool(value) => EirExpr::Bool(*value),
            EirExpr::Str(value) => EirExpr::Str(value.clone()),
            EirExpr::Zero => EirExpr::Zero,
            EirExpr::HighZ => EirExpr::HighZ,
            EirExpr::Unary { op, expr } => EirExpr::Unary { op: *op, expr: Box::new((**expr).copy()) },
            EirExpr::Binary { op, left, right } => EirExpr::Binary {
                op: *op,
                left: Box::new((**left).copy()),
                right: Box::new((**right).copy()),
            },
            EirExpr::Mux { cond, then_value, else_value } => EirExpr::Mux {
                cond: Box::new((**cond).copy()),
                then_value: Box::new((**then_value).copy()),
                else_value: Box::new((**else_value).copy()),
            },
            EirExpr::Select { mode, arms, default } => EirExpr::Select {
                mode: *mode,
                arms: clone_arms(arms),
                default: Box::new((**default).copy()),
            },
            EirExpr::Concat(parts) => EirExpr::Concat(clone_exprs(parts)),
            EirExpr::Slice { value, high, low } => EirExpr::Slice {
                value: Box::new((**value).copy()),
                high: EirBound { source: high.source.clone(), expr: Box::new((*high.expr).copy()) },
                low: EirBound { source: low.source.clone(), expr: Box::new((*low.expr).copy()) },
            },
            EirExpr::IndexedPartSelect { value, index, width } => EirExpr::IndexedPartSelect {
                value: Box::new((**value).copy()),
                index: Box::new((**index).copy()),
                width: EirBound {
                    source: width.source.clone(),
                    expr: Box::new((*width.expr).copy()),
                },
            },
            EirExpr::Index { value, index } => EirExpr::Index {
                value: Box::new((**value).copy()),
                index: Box::new((**index).copy()),
            },
            EirExpr::Call { name, args } => EirExpr::Call {
                name: name.clone(),
                args: clone_exprs(args),
            },
            EirExpr::Unsupported { message } => EirExpr::Unsupported { message: message.clone() },
        }
    }
}

impl Clone for EirExpr {
    fn clone(&self) -> (r: Self)
        ensures
            same_expr(r, *self),
            same_expr(*self, r),
    {
        self.copy()
    }
}

/// A copy of a vector of expressions.
pub fn clone_exprs(parts: &Vec<EirExpr>) -> (r: Vec<EirExpr>)
    ensures
        r.len() == parts.len(),
        forall|i: int| 0 <= i < parts.len() ==> same_expr(#[trigger] r@[i], parts@[i]),
        forall|i: int| 0 <= i < parts.len() ==> same_expr(#[trigger] parts@[i], r@[i]),
    decreases parts,
{
    let mut r: Vec<EirExpr> = Vec::new();
    let mut i: usize = 0;
    while i < parts.len()
        invariant
            i <= parts.len(),
            r.len() == i,
            forall|j: int| 0 <= j < i ==> same_expr(#[trigger] r@[j], parts@[j]),
            forall|j: int| 0 <= j < i ==> same_expr(#[trigger] parts@[j], r@[j]),
        decreases parts.len() - i,
    {
        assert(decreases_to!(parts => parts@[i as int]));
        r.push(parts[i].copy());
        i = i + 1;
    }
    r
}

/// A copy of a vector of select arms.
pub fn clone_arms(arms: &Vec<EirSelectArm>) -> (r: Vec<EirSelectArm>)
    ensures
        r.len() == arms.len(),
        forall|i: int|
            0 <= i < arms.len() ==> same_expr(#[trigger] r@[i].guard, arms@[i].guard) && same_expr(
                r@[i].value,
                arms@[i].value,
            ) && same_expr(arms@[i].guard, r@[i].guard) && same_expr(arms@[i].value, r@[i].value),
    decreases arms,
{
    let mut r: Vec<EirSelectArm> = Vec::new();
    let mut i: usize = 0;
    while i < arms.len()
        invariant
            i <= arms.len(),
            r.len() == i,
            forall|j: int|
                0 <= j < i ==> same_expr(#[trigger] r@[j].guard, arms@[j].guard) && same_expr(
                    r@[j].value,
                    arms@[j].value,
                ) && same_expr(arms@[j].guard, r@[j].guard) && same_expr(arms@[j].value, r@[j].value),
        decreases arms.len() - i,
    {
        assert(decreases_to!(arms => arms@[i as int]));
        r.push(arms[i].copy());
        i = i + 1;
    }
    r
}

impl EirSelectArm {
    pub fn new(guard: EirExpr, value: EirExpr) -> (r: Self)
        ensures
            r.guard == guard,
            r.value == value,
    {
        EirSelectArm { guard, value }
    }

    pub fn guard(&self) -> (r: &EirExpr)
        ensures
            *r == self.guard,
    {
        &self.guard
    }

    pub fn value(&self) -> (r: &EirExpr)
        ensures
            *r == self.value,
    {
        &self.value
    }

    /// The fact key of the arm: its guard's key, `=>`, then its value's key.
    pub fn fact_key(&self) -> (r: String)
        ensures
            r@ == fact_key(self.guard) + "=>"@ + fact_key(self.value),
    {
        let mut out: Vec<char> = Vec::new();
        self.guard.push_fact_key(&mut out);
        push_lit(&mut out, "=>");
        self.value.push_fact_key(&mut out);
        proof {
            assert(out@ =~= fact_key(self.guard) + "=>"@ + fact_key(self.value));
        }
        crate::text::string_of(&out)
    }
}

impl EirExpr {
    pub fn ident(name: &str) -> (r: Self)
        ensures
            r matches EirExpr::Ident(n) && n@ == name@,
    {
        EirExpr::Ident(name.to_owned())
    }

    pub fn zero() -> (r: Self)
        ensures
            r == EirExpr::Zero,
    {
        EirExpr::Zero
    }

    pub fn high_z() -> (r: Self)
        ensures
            r == EirExpr::HighZ,
    {
        EirExpr::HighZ
    }

    pub fn unary(op: EirUnaryOp, expr: EirExpr) -> (r: Self)
        ensures
            r == (EirExpr::Unary { op, expr: Box::new(expr) }),
    {
        EirExpr::Unary { op, expr: Box::new(expr) }
    }

    pub fn binary(op: EirBinaryOp, left: EirExpr, right: EirExpr) -> (r: Self)
        ensures
            r == (EirExpr::Binary { op, left: Box::new(left), right: Box::new(right) }),
    {
        EirExpr::Binary { op, left: Box::new(left), right: Box::new(right) }
    }

    pub fn mux(cond: EirExpr, then_value: EirExpr, else_value: EirExpr) -> (r: Self)
        ensures
            r == (EirExpr::Mux {
                cond: Box::new(cond),
                then_value: Box::new(then_value),
                else_value: Box::new(else_value),
            }),
    {
        EirExpr::Mux {
            cond: Box::new(cond),
            then_value: Box::new(then_value),
            else_value: Box::new(else_value),
        }
    }

    pub fn select(mode: EirSelectMode, arms: Vec<EirSelectArm>, default: EirExpr) -> (r: Self)
        ensures
            r == (EirExpr::Select { mode, arms, default: Box::new(default) }),
    {
        EirExpr::Select { mode, arms, default: Box::new(default) }
    }

    pub fn index(value: EirExpr, index: EirExpr) -> (r: Self)
        ensures
            r == (EirExpr::Index { value: Box::new(value), index: Box::new(index) }),
    {
        EirExpr::Index { value: Box::new(value), index: Box::new(index) }
    }

    pub fn indexed_part_select(value: EirExpr, index: EirExpr, width: EirBound) -> (r: Self)
        ensures
            r == (EirExpr::IndexedPartSelect {
                value: Box::new(value),
                index: Box::new(index),
                width,
            }),
    {
        EirExpr::IndexedPartSelect { value: Box::new(value), index: Box::new(index), width }
    }

    pub fn slice(value: EirExpr, high: EirBound, low: EirBound) -> (r: Self)
        ensures
            r == (EirExpr::Slice { value: Box::new(value), high, low }),
    {
        EirExpr::Slice { value: Box::new(value), high, low }
    }

    pub fn call(name: &str, args: Vec<EirExpr>) -> (r: Self)
        ensures
            r matches EirExpr::Call { name: n, args: a } && n@ == name@ && a == args,
    {
        EirExpr::Call { name: name.to_owned(), args }
    }

    pub fn unsupported(message: &str) -> (r: Self)
        ensures
            r matches EirExpr::Unsupported { message: m } && m@ == message@,
    {
        EirExpr::Unsupported { message: message.to_owned() }
    }

    /// The stable text by which this expression is recognised in facts.
    pub fn fact_key(&self) -> (r: String)
        ensures
            r@ == fact_key(*self),
    {
        let mut out: Vec<char> = Vec::new();
        self.push_fact_key(&mut out);
        crate::text::string_of(&out)
    }

    #[verifier::rlimit(60)]
    fn push_fact_key(&self, out: &mut Vec<char>)
        ensures
            final(out)@ == old(out)@ + fact_key(*self),
        decreases self,
    {
        match self {
            EirExpr::Ident(name) => {
                push_lit(out, name.as_str());
            },
            EirExpr::Int(value) => {
                let digits = u64_digits(*value);
                push_all(out, &digits);
            },
            EirExpr::Bool(value) => {
                if *value {
                    push_lit(out, "true");
                } else {
                    push_lit(out, "false");
                }
            },
            EirExpr::Str(value) => {
                push_call_open(out, "str");
                push_lit(out, value.as_str());
                out.push(')');
            },
            EirExpr::Zero => {
                push_lit(out, "zero");
            },
            EirExpr::HighZ => {
                push_lit(out, "z");
            },
            EirExpr::Unary { op, expr } => {
                push_call_open(out, op.fact_name());
                expr.push_fact_key(out);
                out.push(')');
            },
            EirExpr::Binary { op, left, right } => {
                push_call_open(out, op.fact_name());
                left.push_fact_key(out);
                out.push(',');
                right.push_fact_key(out);
                out.push(')');
            },
            EirExpr::Mux { cond, then_value, else_value } => {
                push_call_open(out, "mux");
                cond.push_fact_key(out);
                out.push(',');
                then_value.push_fact_key(out);
                out.push(',');
                else_value.push_fact_key(out);
                out.push(')');
            },
            EirExpr::Select { mode, arms, default } => {
                match mode {
                    EirSelectMode::Priority => push_call_open(out, "select_priority"),
                    EirSelectMode::Unique => push_call_open(out, "select_unique"),
                }
                Self::push_arm_keys(arms, out);
                out.push(';');
                default.push_fact_key(out);
                out.push(')');
            },
            EirExpr::Concat(parts) => {
                push_call_open(out, "concat");
                Self::push_expr_keys(parts, out);
                out.push(')');
            },
            EirExpr::Slice { value, high, low } => {
                push_call_open(out, "slice");
                value.push_fact_key(out);
                out.push(',');
                high.expr.push_fact_key(out);
                out.push(',');
                low.expr.push_fact_key(out);
                out.push(')');
            },
            EirExpr::IndexedPartSelect { value, index, width } => {
                push_call_open(out, "part");
                value.push_fact_key(out);
                out.push(',');
                index.push_fact_key(out);
                out.push(',');
                width.expr.push_fact_key(out);
                out.push(')');
            },
            EirExpr::Index { value, index } => {
                push_call_open(out, "idx");
                value.push_fact_key(out);
                out.push(',');
                index.push_fact_key(out);
                out.push(')');
            },
            EirExpr::Call { name, args } => {
                push_call_open(out, "call");
                push_lit(out, name.as_str());
                out.push(',');
                Self::push_expr_keys(args, out);
                out.push(')');
            },
            EirExpr::Unsupported { message } => {
                push_call_open(out, "unsupported");
                push_lit(out, message.as_str());
                out.push(')');
            },
        }
    }

    fn push_expr_keys(parts: &Vec<EirExpr>, out: &mut Vec<char>)
        ensures
            final(out)@ == old(out)@ + expr_keys(parts@),
        decreases parts,
    {
        let mut i: usize = 0;
        while i < parts.len()
            invariant
                i <= parts.len(),
                out@ == old(out)@ + expr_keys(parts@.take(i as int)),
            decreases parts.len() - i,
        {
            assert(parts@.take(i + 1).drop_last() =~= parts@.take(i as int));
            assert(parts@.take(i + 1).last() == parts@[i as int]);
            if i > 0 {
                out.push(',');
            }
            assert(decreases_to!(parts => parts@[i as int]));
            parts[i].push_fact_key(out);
            i = i + 1;
        }
        assert(parts@.take(parts.len() as int) =~= parts@);
    }

    fn push_arm_keys(arms: &Vec<EirSelectArm>, out: &mut Vec<char>)
        ensures
            final(out)@ == old(out)@ + arm_keys(arms@),
        decreases arms,
    {
        let mut i: usize = 0;
        while i < arms.len()
            invariant
                i <= arms.len(),
                out@ == old(out)@ + arm_keys(arms@.take(i as int)),
            decreases arms.len() - i,
        {
            assert(arms@.take(i + 1).drop_last() =~= arms@.take(i as int));
            assert(arms@.take(i + 1).last() == arms@[i as int]);
            if i > 0 {
                out.push(',');
            }
            assert(decreases_to!(arms => arms@[i as int].guard));
            arms[i].guard.push_fact_key(out);
            push_lit(out, "=>");
            arms[i].value.push_fact_key(out);
            i = i + 1;
        }
        assert(arms@.take(arms.len() as int) =~= arms@);
    }
}


impl EirBound {
    /// The two bounds have the same text and the same expression.
    pub fn same_as(&self, other: &Self) -> (r: bool)
        ensures
            r == (self.source@ == other.source@ && same_expr(*self.expr, *other.expr)),
    {
        str_eq(self.source.as_str(), other.source.as_str()) && self.expr.same_as(&other.expr)
    }
}

impl EirExpr {
    /// The two expressions have the same structure and leaves.
    pub fn same_as(&self, other: &Self) -> (r: bool)
        ensures
            r == same_expr(*self, *other),
        decreases self,
    {
        match (self, other) {
            (EirExpr::Ident(a), EirExpr::Ident(b)) => str_eq(a.as_str(), b.as_str()),
            (EirExpr::Int(a), EirExpr::Int(b)) => *a == *b,
            (EirExpr::Bool(a), EirExpr::Bool(b)) => *a == *b,
            (EirExpr::Str(a), EirExpr::Str(b)) => str_eq(a.as_str(), b.as_str()),
            (EirExpr::Zero, EirExpr::Zero) => true,
            (EirExpr::HighZ, EirExpr::HighZ) => true,
            (EirExpr::Unary { op: o1, expr: e1 }, EirExpr::Unary { op: o2, expr: e2 }) => *o1 == *o2
                && e1.same_as(e2),
            (
                EirExpr::Binary { op: o1, left: l1, right: r1 },
                EirExpr::Binary { op: o2, left: l2, right: r2 },
            ) => *o1 == *o2 && l1.same_as(l2) && r1.same_as(r2),
            (
                EirExpr::Mux { cond: c1, then_value: t1, else_value: e1 },
                EirExpr::Mux { cond: c2, then_value: t2, else_value: e2 },
            ) => c1.same_as(c2) && t1.same_as(t2) && e1.same_as(e2),
            (
                EirExpr::Select { mode: m1, arms: a1, default: d1 },
                EirExpr::Select { mode: m2, arms: a2, default: d2 },
            ) => *m1 == *m2 && Self::arms_same(a1, a2) && d1.same_as(d2),
            (EirExpr::Concat(p1), EirExpr::Concat(p2)) => Self::all_same(p1, p2),
            (
                EirExpr::Slice { value: v1, high: h1, low: lo1 },
                EirExpr::Slice { value: v2, high: h2, low: lo2 },
            ) => {
                v1.same_as(v2) && str_eq(h1.source.as_str(), h2.source.as_str())
                    && h1.expr.same_as(&h2.expr) && str_eq(lo1.source.as_str(), lo2.source.as_str())
                    && lo1.expr.same_as(&lo2.expr)
            },
            (
                EirExpr::IndexedPartSelect { value: v1, index: i1, width: w1 },
                EirExpr::IndexedPartSelect { value: v2, index: i2, width: w2 },
            ) => {
                v1.same_as(v2) && i1.same_as(i2) && str_eq(w1.source.as_str(), w2.source.as_str())
                    && w1.expr.same_as(&w2.expr)
            },
            (EirExpr::Index { value: v1, index: i1 }, EirExpr::Index { value: v2, index: i2 }) => {
                v1.same_as(v2) && i1.same_as(i2)
            },
            (EirExpr::Call { name: n1, args: a1 }, EirExpr::Call { name: n2, args: a2 }) => {
                str_eq(n1.as_str(), n2.as_str()) && Self::all_same(a1, a2)
            },
            (EirExpr::Unsupported { message: m1 }, EirExpr::Unsupported { message: m2 }) => {
                str_eq(m1.as_str(), m2.as_str())
            },
            _ => false,
        }
    }

    fn all_same(a: &Vec<EirExpr>, b: &Vec<EirExpr>) -> (r: bool)
        ensures
            r == (a.len() == b.len() && forall|i: int|
                0 <= i < a.len() ==> same_expr(#[trigger] a@[i], b@[i])),
        decreases a,
    {
        if a.len() != b.len() {
            return false;
        }
        let mut i: usize = 0;
        while i < a.len()
            invariant
                i <= a.len(),
                a.len() == b.len(),
                forall|j: int| 0 <= j < i ==> same_expr(#[trigger] a@[j], b@[j]),
            decreases a.len() - i,
        {
            assert(decreases_to!(a => a@[i as int]));
            if !a[i].same_as(&b[i]) {
                return false;
            }
            i = i + 1;
        }
        true
    }

    fn arms_same(a: &Vec<EirSelectArm>, b: &Vec<EirSelectArm>) -> (r: bool)
        ensures
            r == (a.len() == b.len() && forall|i: int|
                0 <= i < a.len() ==> same_expr(#[trigger] a@[i].guard, b@[i].guard) && same_expr(
                    a@[i].value,
                    b@[i].value,
                )),
        decreases a,
    {
        if a.len() != b.len() {
            return false;
        }
        let mut i: usize = 0;
        while i < a.len()
            invariant
                i <= a.len(),
                a.len() == b.len(),
                forall|j: int|
                    0 <= j < i ==> same_expr(#[trigger] a@[j].guard, b@[j].guard) && same_expr(
                        a@[j].value,
                        b@[j].value,
                    ),
            decreases a.len() - i,
        {
            assert(decreases_to!(a => a@[i as int].guard));
            assert(decreases_to!(a => a@[i as int].value));
            if !a[i].guard.same_as(&b[i].guard) || !a[i].value.same_as(&b[i].value) {
                return false;
            }
            i = i + 1;
        }
        true
    }
}

} // verus!

verus! {

/// A place written to or read from: a name, with slices and indexes applied.
#[derive(Debug)]
pub enum EirPlace {
    Ident(String),
    Slice { base: Box<EirPlace>, high: EirBound, low: EirBound },
    IndexedPartSelect { base: Box<EirPlace>, index: EirExpr, width: EirBound },
    Index { base: Box<EirPlace>, index: EirExpr },
}

/// An expression that does not denote a place.
#[derive(Debug, Clone, Copy, PartialEq, Eq, Structural)]
pub struct EirPlaceError;

/// The expression denotes the place.
pub open spec fn expr_is_place(e: EirExpr, p: EirPlace) -> bool
    decreases p,
{
    match p {
        EirPlace::Ident(name) => e == EirExpr::Ident(name),
        EirPlace::Slice { base, high, low } => e matches EirExpr::Slice { value, high: h, low: l }
            && expr_is_place(*value, *base) && same_bound(h, high) && same_bound(l, low),
        EirPlace::IndexedPartSelect { base, index, width } => e matches EirExpr::IndexedPartSelect {
            value,
            index: i,
            width: w,
        } && expr_is_place(*value, *base) && same_expr(*i, index) && same_bound(w, width),
        EirPlace::Index { base, index } => e matches EirExpr::Index { value, index: i }
            && expr_is_place(*value, *base) && same_expr(*i, index),
    }
}

/// Two places have the same root, projections and bounds.
pub open spec fn place_same(a: EirPlace, b: EirPlace) -> bool
    decreases a,
{
    match a {
        EirPlace::Ident(name) => b matches EirPlace::Ident(n2) && name@ == n2@,
        EirPlace::Slice { base, high, low } => b matches EirPlace::Slice { base: b2, high: h2, low: l2 }
            && place_same(*base, *b2) && same_bound(high, h2) && same_bound(low, l2),
        EirPlace::IndexedPartSelect { base, index, width } => b matches EirPlace::IndexedPartSelect {
            base: b2,
            index: i2,
            width: w2,
        } && place_same(*base, *b2) && same_expr(index, i2) && same_expr(i2, index) && same_bound(
            width,
            w2,
        ),
        EirPlace::Index { base, index } => b matches EirPlace::Index { base: b2, index: i2 }
            && place_same(*base, *b2) && same_expr(index, i2) && same_expr(i2, index),
    }
}

/// The expression is a name with slices and indexes applied.
pub open spec fn denotes_place(e: EirExpr) -> bool
    decreases e,
{
    match e {
        EirExpr::Ident(_) => true,
        EirExpr::Slice { value, .. } => denotes_place(*value),
        EirExpr::IndexedPartSelect { value, .. } => denotes_place(*value),
        EirExpr::Index { value, .. } => denotes_place(*value),
        _ => false,
    }
}

/// The expression that reads a place denotes a place, and every place read
/// back from it is the same place: reading a place back from its expression
/// gives the place again.
pub proof fn lemma_place_round_trip(p: EirPlace, e: EirExpr, q: EirPlace)
    requires
        expr_is_place(e, p),
    ensures
        denotes_place(e),
        expr_is_place(e, q) ==> place_same(q, p),
    decreases p,
{
    match p {
        EirPlace::Ident(_) => {},
        EirPlace::Slice { base, high, low } => {
            if let EirExpr::Slice { value, high: h, low: l } = e {
                if let EirPlace::Slice { base: qb, high: qh, low: ql } = q {
                    lemma_place_round_trip(*base, *value, *qb);
                    if expr_is_place(e, q) {
                        lemma_same_expr_symmetric(*h.expr, *qh.expr);
                        lemma_same_expr_symmetric(*h.expr, *high.expr);
                        lemma_same_expr_transitive(*qh.expr, *h.expr, *high.expr);
                        lemma_same_expr_transitive(*high.expr, *h.expr, *qh.expr);
                        lemma_same_expr_symmetric(*l.expr, *ql.expr);
                        lemma_same_expr_symmetric(*l.expr, *low.expr);
                        lemma_same_expr_transitive(*ql.expr, *l.expr, *low.expr);
                        lemma_same_expr_transitive(*low.expr, *l.expr, *ql.expr);
                    }
                } else {
                    lemma_place_round_trip(*base, *value, *base);
                }
            }
        },
        EirPlace::IndexedPartSelect { base, index, width } => {
            if let EirExpr::IndexedPartSelect { value, index: i, width: w } = e {
                if let EirPlace::IndexedPartSelect { base: qb, index: qi, width: qw } = q {
                    lemma_place_round_trip(*base, *value, *qb);
                    if expr_is_place(e, q) {
                        lemma_same_expr_symmetric(*i, qi);
                        lemma_same_expr_symmetric(*i, index);
                        lemma_same_expr_transitive(qi, *i, index);
                        lemma_same_expr_transitive(index, *i, qi);
                        lemma_same_expr_symmetric(*w.expr, *qw.expr);
                        lemma_same_expr_symmetric(*w.expr, *width.expr);
                        lemma_same_expr_transitive(*qw.expr, *w.expr, *width.expr);
                        lemma_same_expr_transitive(*width.expr, *w.expr, *qw.expr);
                    }
                } else {
                    lemma_place_round_trip(*base, *value, *base);
                }
            }
        },
        EirPlace::Index { base, index } => {
            if let EirExpr::Index { value, index: i } = e {
                if let EirPlace::Index { base: qb, index: qi } = q {
                    lemma_place_round_trip(*base, *value, *qb);
                    if expr_is_place(e, q) {
                        lemma_same_expr_symmetric(*i, qi);
                        lemma_same_expr_symmetric(*i, index);
                        lemma_same_expr_transitive(qi, *i, index);
                        lemma_same_expr_transitive(index, *i, qi);
                    }
                } else {
                    lemma_place_round_trip(*base, *value, *base);
                }
            }
        },
    }
}

impl EirPlace {
    /// The expression that reads this place.
    pub fn to_expr(&self) -> (r: EirExpr)
        ensures
            expr_is_place(r, *self),
        decreases self,
    {
        match self {
            EirPlace::Ident(name) => EirExpr::Ident(name.clone()),
            EirPlace::Slice { base, high, low } => EirExpr::Slice {
                value: Box::new(base.to_expr()),
                high: high.clone(),
                low: low.clone(),
            },
            EirPlace::IndexedPartSelect { base, index, width } => EirExpr::IndexedPartSelect {
                value: Box::new(base.to_expr()),
                index: Box::new(index.copy()),
                width: width.clone(),
            },
            EirPlace::Index { base, index } => EirExpr::Index {
                value: Box::new(base.to_expr()),
                index: Box::new(index.copy()),
            },
        }
    }

    /// A copy of this place.
    pub fn copy(&self) -> (r: Self)
        ensures
            place_same(r, *self),
        decreases self,
    {
        match self {
            EirPlace::Ident(name) => EirPlace::Ident(name.clone()),
            EirPlace::Slice { base, high, low } => EirPlace::Slice {
                base: Box::new(base.copy()),
                high: high.clone(),
                low: low.clone(),
            },
            EirPlace::IndexedPartSelect { base, index, width } => EirPlace::IndexedPartSelect {
                base: Box::new(base.copy()),
                index: index.copy(),
                width: width.clone(),
            },
            EirPlace::Index { base, index } => EirPlace::Index {
                base: Box::new(base.copy()),
                index: index.copy(),
            },
        }
    }

    /// The place that an expression denotes.
    pub fn try_from_expr(expr: &EirExpr) -> (r: Result<Self, EirPlaceError>)
        ensures
            r is Ok <==> denotes_place(*expr),
            r matches Ok(p) ==> expr_is_place(*expr, p),
        decreases expr,
    {
        match expr {
            EirExpr::Ident(name) => Ok(EirPlace::Ident(name.clone())),
            EirExpr::Slice { value, high, low } => Ok(EirPlace::Slice {
                base: Box::new(Self::try_from_expr(value)?),
                high: high.clone(),
                low: low.clone(),
            }),
            EirExpr::IndexedPartSelect { value, index, width } => Ok(EirPlace::IndexedPartSelect {
                base: Box::new(Self::try_from_expr(value)?),
                index: (**index).copy(),
                width: width.clone(),
            }),
            EirExpr::Index { value, index } => Ok(EirPlace::Index {
                base: Box::new(Self::try_from_expr(value)?),
                index: (**index).copy(),
            }),
            _ => Err(EirPlaceError),
        }
    }
}

} // verus!
