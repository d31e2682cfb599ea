//! What elaboration makes of the value of a constant expression: a natural
//! number where one is required, a boolean where an elaboration-time `if`
//! needs one. Both take the outcome of evaluating the expression and the
//! span of the expression.
use crate::guard::Span;
use vstd::prelude::*;

verus! {

/// The kind of a constant.
#[derive(Clone, Copy, Debug, PartialEq, Eq, Structural)]
pub enum ConstKind {
    Nat,
    Bool,
    Other,
}

/// The value of a constant expression: a known natural number or boolean, a
/// value of known kind whose exact value is not known, or a value of any
/// other kind.
#[derive(Clone, Copy, Debug, PartialEq, Eq, Structural)]
pub enum ConstValue {
    Nat(u64),
    Bool(bool),
    Unknown(ConstKind),
    Other,
}

/// Why a constant expression has no usable value.
#[derive(Debug, PartialEq, Eq)]
pub enum ConstError {
    /// Lowering the expression failed; `kind` says how.
    Lowering { kind: String, span: Span },
    /// The expression cannot be evaluated during elaboration where
    /// `context` needs it; `source` is the lowering failure.
    NotElaborationTimeExpression { context: String, source: String, span: Span },
    /// `context` needs a natural-number expression.
    RequiresNatExpression { context: String, span: Span },
    /// An elaboration-time `if` needs a boolean condition.
    ElaborationIfRequiresBool { span: Span },
    /// Evaluation failed otherwise.
    Other { span: Span },
}

/// The value is a natural number, known or not.
pub open spec fn is_nat_value(v: ConstValue) -> bool {
    v is Nat || v == ConstValue::Unknown(ConstKind::Nat)
}

/// The value of an expression where `context` needs a natural number: a
/// natural-number value as it is; any other value refused as not a natural
/// number; a lowering failure reported as an expression that elaboration
/// cannot evaluate; any other failure passed on.
pub fn require_elab_nat(value: Result<ConstValue, ConstError>, span: Span, context: &str) -> (r: Result<
    ConstValue,
    ConstError,
>)
    ensures
        match value {
            Ok(v) => if is_nat_value(v) {
                r == Ok::<ConstValue, ConstError>(v)
            } else {
                r matches Err(ConstError::RequiresNatExpression { context: c, span: s }) && c@
                    == context@ && s == span
            },
            Err(ConstError::Lowering { kind, .. }) => r matches Err(
                ConstError::NotElaborationTimeExpression { context: c, source, span: s },
            ) && c@ == context@ && source@ == kind@ && s == span,
            Err(e) => r == Err::<ConstValue, ConstError>(e),
        },
{
    let value = match value {
        Ok(value) => value,
        Err(ConstError::Lowering { kind, .. }) => {
            return Err(
                ConstError::NotElaborationTimeExpression {
                    context: context.to_owned(),
                    source: kind,
                    span,
                },
            );
        },
        Err(error) => {
            return Err(error);
        },
    };
    match value {
        ConstValue::Nat(_) | ConstValue::Unknown(ConstKind::Nat) => Ok(value),
        _ => Err(ConstError::RequiresNatExpression { context: context.to_owned(), span }),
    }
}

/// The condition of an elaboration-time `if`: a known boolean, none for a
/// boolean whose value is not known, any other value refused as not a
/// boolean; a failed evaluation passed on.
pub fn elab_bool(value: Result<ConstValue, ConstError>, span: Span) -> (r: Result<Option<bool>, ConstError>)
    ensures
        match value {
            Ok(ConstValue::Bool(b)) => r == Ok::<Option<bool>, ConstError>(Some(b)),
            Ok(ConstValue::Unknown(ConstKind::Bool)) => r == Ok::<Option<bool>, ConstError>(None),
            Ok(_) => r == Err::<Option<bool>, ConstError>(ConstError::ElaborationIfRequiresBool { span }),
            Err(e) => r == Err::<Option<bool>, ConstError>(e),
        },
{
    match value? {
        ConstValue::Bool(value) => Ok(Some(value)),
        ConstValue::Unknown(ConstKind::Bool) => Ok(None),
        _ => Err(ConstError::ElaborationIfRequiresBool { span }),
    }
}

} // verus!
