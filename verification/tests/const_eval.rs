use syl_elab::const_eval::{ConstError, ConstKind, ConstValue, elab_bool, require_elab_nat};
use syl_elab::guard::Span;

fn span() -> Span {
    Span::new_in(1, 5, 9)
}

#[test]
fn natural_numbers_pass_where_one_is_required() {
    assert_eq!(require_elab_nat(Ok(ConstValue::Nat(4)), span(), "width"), Ok(ConstValue::Nat(4)));
    assert_eq!(
        require_elab_nat(Ok(ConstValue::Unknown(ConstKind::Nat)), span(), "width"),
        Ok(ConstValue::Unknown(ConstKind::Nat))
    );
}

#[test]
fn other_values_are_refused_where_a_number_is_required() {
    assert_eq!(
        require_elab_nat(Ok(ConstValue::Bool(true)), span(), "width"),
        Err(ConstError::RequiresNatExpression { context: "width".to_string(), span: span() })
    );
}

#[test]
fn lowering_failures_become_not_elaboration_time() {
    let failure = ConstError::Lowering { kind: "unknown name".to_string(), span: Span::new_in(1, 0, 1) };
    assert_eq!(
        require_elab_nat(Err(failure), span(), "width"),
        Err(ConstError::NotElaborationTimeExpression {
            context: "width".to_string(),
            source: "unknown name".to_string(),
            span: span(),
        })
    );
    assert_eq!(
        require_elab_nat(Err(ConstError::Other { span: span() }), span(), "width"),
        Err(ConstError::Other { span: span() })
    );
}

#[test]
fn elaboration_if_needs_a_boolean() {
    assert_eq!(elab_bool(Ok(ConstValue::Bool(false)), span()), Ok(Some(false)));
    assert_eq!(elab_bool(Ok(ConstValue::Unknown(ConstKind::Bool)), span()), Ok(None));
    assert_eq!(
        elab_bool(Ok(ConstValue::Nat(1)), span()),
        Err(ConstError::ElaborationIfRequiresBool { span: span() })
    );
}
