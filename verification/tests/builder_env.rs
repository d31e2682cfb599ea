use syl_elab::builder_env::Env;
use syl_elab::expr::EirExpr;

fn names(env: &Env, static_type: &str) -> Option<Vec<String>> {
    env.vars_of_type(static_type).cloned()
}

#[test]
fn insert_indexes_vars_by_static_type() {
    let mut env = Env::new();
    env.insert("clock_a", EirExpr::ident("clock_a"), Some("Clock"));
    env.insert("clock_b", EirExpr::ident("clock_b"), Some("Clock"));
    env.insert("reset_a", EirExpr::ident("reset_a"), Some("Reset"));

    assert_eq!(names(&env, "Clock"), Some(vec!["clock_a".to_string(), "clock_b".to_string()]));
    assert_eq!(names(&env, "Reset"), Some(vec!["reset_a".to_string()]));
}

#[test]
fn insert_replaces_previous_static_type_index_entry() {
    let mut env = Env::new();
    env.insert("value", EirExpr::ident("value"), Some("Clock"));
    env.insert("value", EirExpr::ident("value"), Some("Reset"));

    assert_eq!(names(&env, "Clock"), None);
    assert_eq!(names(&env, "Reset"), Some(vec!["value".to_string()]));
}

#[test]
fn rebinding_keeps_other_variables_of_the_old_type() {
    let mut env = Env::new();
    env.insert("a", EirExpr::ident("a"), Some("Clock"));
    env.insert("b", EirExpr::ident("b"), Some("Clock"));
    env.insert("a", EirExpr::Int(1), None);

    assert_eq!(names(&env, "Clock"), Some(vec!["b".to_string()]));
    assert_eq!(env.vars.len(), 2);
}
