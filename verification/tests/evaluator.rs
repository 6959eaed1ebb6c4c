use lambda_calc::eval::{eval, eval_sequence, inline_vars, Env, EvalError};
use lambda_calc::printer::pretty_print;
use lambda_calc::reduce::{beta_reduce, has_redex, normalize};
use lambda_calc::subst::substitute;
use lambda_calc::term::{free_vars, fresh_var, rename_var, Term};

fn var(n: &str) -> Term {
    Term::Variable(n.to_string())
}

fn abs(p: &str, b: Term) -> Term {
    Term::Abstraction(p.to_string(), Box::new(b))
}

fn app(f: Term, a: Term) -> Term {
    Term::Application(Box::new(f), Box::new(a))
}

fn assign(n: &str, t: Term) -> Term {
    Term::Assignment(n.to_string(), Box::new(t))
}

fn omega() -> Term {
    app(abs("x", app(var("x"), var("x"))), abs("x", app(var("x"), var("x"))))
}

#[test]
fn substitution_avoids_capture() {
    // Substituting x := x' into λx'.x must rename the binder first: the
    // injected x' stays free instead of being captured.
    let t = abs("x'", var("x"));
    let r = substitute(&t, "x", &var("x'"));
    assert_eq!(pretty_print(&r), "λx''.x'");
}

#[test]
fn substitution_stops_at_shadowing_binder() {
    // In λx.λx'.x the outer binder shadows x, so x := x' changes nothing,
    // and in particular the result is not λx'.λx'.x'.
    let t = abs("x", abs("x'", var("x")));
    let r = substitute(&t, "x", &var("x'"));
    assert_eq!(pretty_print(&r), "λx.λx'.x");
}

#[test]
fn substitution_fixed_point() {
    // x is not free in λy.z and no binder clashes with the value.
    let t = abs("y", var("z"));
    let r = substitute(&t, "x", &var("w"));
    assert_eq!(pretty_print(&r), "λy.z");
}

#[test]
fn substitution_renames_clashing_binder_even_without_occurrence() {
    // x is not free in λy.z either, but the binder y is free in the value,
    // so the capture-avoiding rename still fires and changes the tree.
    let t = abs("y", var("z"));
    let r = substitute(&t, "x", &var("y"));
    assert_eq!(pretty_print(&r), "λy'.z");
}

#[test]
fn fresh_binder_skips_names_free_in_value() {
    // Renaming y must not pick y', which is free in the value: the first
    // truly fresh derivative is y''.
    let t = abs("y", var("x"));
    let value = app(var("y"), var("y'"));
    let r = substitute(&t, "x", &value);
    assert_eq!(pretty_print(&r), "λy''.(y y')");
}

#[test]
fn fresh_binder_skips_binders_of_the_body() {
    // Renaming y must not pick y', which an inner abstraction already
    // binds: the blind rename would hand the outer variable to it.
    let t = abs("y", abs("y'", var("y")));
    let r = substitute(&t, "x", &var("y"));
    assert_eq!(pretty_print(&r), "λy''.λy'.y''");
}

#[test]
fn free_variables_of_open_abstraction() {
    let t = abs("x", app(var("x"), var("y")));
    let fv = free_vars(&t);
    assert_eq!(fv, vec!["y".to_string()]);
}

#[test]
fn free_variables_of_identity() {
    let t = abs("x", var("x"));
    let fv = free_vars(&t);
    assert!(fv.is_empty());
}

#[test]
fn fresh_var_appends_prime() {
    assert_eq!(fresh_var("x"), "x'");
    assert_eq!(fresh_var("x'"), "x''");
}

#[test]
fn rename_var_is_blind() {
    // Renaming replaces binder names and references alike, nested
    // rebindings included.
    let t = abs("x", abs("x", var("x")));
    let r = rename_var(&t, "x", "y");
    assert_eq!(pretty_print(&r), "λy.λy.y");
}

#[test]
fn beta_reduce_fires_head_redex() {
    let t = app(abs("x", var("x")), var("y"));
    let r = beta_reduce(&t);
    assert_eq!(pretty_print(&r), "y");
}

#[test]
fn has_redex_sees_through_abstraction() {
    let t = abs("z", app(abs("x", var("x")), var("y")));
    assert!(has_redex(&t));
    assert!(!has_redex(&abs("x", var("x"))));
}

#[test]
fn identity_application_yields_argument() {
    let mut env = Env::new();
    let t = app(abs("x", var("x")), var("y"));
    match eval(&t, &mut env, 100) {
        Some(Term::Variable(n)) => assert_eq!(n, "y"),
        _ => panic!("expected the bare variable y"),
    }
}

#[test]
fn church_numeral_style_reduction() {
    // (λf.λx.f (f x)) (λy.y) z reduces to z.
    let twice = abs("f", abs("x", app(var("f"), app(var("f"), var("x")))));
    let t = app(app(twice, abs("y", var("y"))), var("z"));
    let mut env = Env::new();
    match eval(&t, &mut env, 100) {
        Some(Term::Variable(n)) => assert_eq!(n, "z"),
        _ => panic!("expected the bare variable z"),
    }
}

#[test]
fn normalize_is_idempotent_on_results() {
    let twice = abs("f", abs("x", app(var("f"), app(var("f"), var("x")))));
    let t = app(app(twice, abs("y", var("y"))), var("z"));
    let first = normalize(&t, 100).expect("the term normalizes");
    let second = normalize(&first, 100).expect("a normal form normalizes");
    assert_eq!(pretty_print(&second), pretty_print(&first));
    assert_eq!(pretty_print(&first), "z");
}

#[test]
fn assignment_persists_across_evaluations() {
    let mut env = Env::new();
    let r = eval(&assign("id", abs("x", var("x"))), &mut env, 100);
    assert!(matches!(r, Some(Term::Abstraction(_, _))));
    match eval(&app(var("id"), var("w")), &mut env, 100) {
        Some(Term::Variable(n)) => assert_eq!(n, "w"),
        _ => panic!("expected the bare variable w"),
    }
}

#[test]
fn assignment_returns_normalized_value() {
    let mut env = Env::new();
    let r = eval(&assign("a", app(abs("x", var("x")), var("q"))), &mut env, 100);
    match r {
        Some(Term::Variable(n)) => assert_eq!(n, "q"),
        _ => panic!("expected the bare variable q"),
    }
}

#[test]
fn sequence_returns_last_result_with_side_effects() {
    let mut env = Env::new();
    let batch = vec![assign("a", abs("x", var("x"))), app(var("a"), var("q"))];
    match eval_sequence(&batch, &mut env, 100) {
        Ok(Term::Variable(n)) => assert_eq!(n, "q"),
        _ => panic!("expected the bare variable q"),
    }
    // The first term's assignment stayed in the environment.
    assert!(env.get("a").is_some());
}

#[test]
fn empty_batch_is_an_error() {
    let mut env = Env::new();
    let r = eval_sequence(&Vec::new(), &mut env, 100);
    assert!(matches!(r, Err(EvalError::NoTermFound)));
}

#[test]
fn self_application_never_normalizes() {
    // (λx.x x) (λx.x x) steps to itself forever; every budget runs out.
    assert!(normalize(&omega(), 10_000).is_none());
}

#[test]
fn budget_exhaustion_in_a_batch() {
    let mut env = Env::new();
    let batch = vec![omega()];
    let r = eval_sequence(&batch, &mut env, 1_000);
    assert!(matches!(r, Err(EvalError::StepBudgetExceeded)));
}

#[test]
fn environment_lookup_and_shadowing() {
    let mut env = Env::new();
    assert!(env.get("a").is_none());
    env.insert("a".to_string(), var("x"));
    env.insert("a".to_string(), var("y"));
    match env.get("a") {
        Some(Term::Variable(n)) => assert_eq!(n, "y"),
        _ => panic!("expected the latest binding"),
    }
}

#[test]
fn inline_vars_resolves_known_names() {
    let mut env = Env::new();
    env.insert("id".to_string(), abs("x", var("x")));
    let r = inline_vars(&app(var("id"), var("w")), &env);
    assert_eq!(pretty_print(&r), "((λx.x) w)");
    // An unknown name stays itself.
    let s = inline_vars(&var("q"), &env);
    assert_eq!(pretty_print(&s), "q");
}

#[test]
fn inline_vars_respects_binders() {
    // Only free occurrences are resolved: a variable bound by an enclosing
    // abstraction belongs to its binder, not to the environment.
    let mut env = Env::new();
    env.insert("a".to_string(), var("y"));
    let bound = inline_vars(&abs("a", var("a")), &env);
    assert_eq!(pretty_print(&bound), "λa.a");
    // A free occurrence under an unrelated binder is still resolved.
    let free = inline_vars(&abs("b", var("a")), &env);
    assert_eq!(pretty_print(&free), "λb.y");
    // Leaving the binder's scope frees the name again.
    let outside = inline_vars(&app(abs("a", var("a")), var("a")), &env);
    assert_eq!(pretty_print(&outside), "((λa.a) y)");
}

#[test]
fn zero_budget_still_accepts_a_normal_form() {
    // A term with no redex needs no steps at all.
    let t = abs("x", var("x"));
    let r = normalize(&t, 0).expect("a normal form costs nothing");
    assert_eq!(pretty_print(&r), "λx.x");
    // One redex is one step too many for a zero budget.
    assert!(normalize(&app(abs("x", var("x")), var("y")), 0).is_none());
}

#[test]
fn normalize_leaves_a_normal_form_unchanged() {
    let t = app(var("f"), app(var("g"), var("x")));
    assert!(!has_redex(&t));
    let r = normalize(&t, 10).expect("no redex to reduce");
    assert_eq!(pretty_print(&r), pretty_print(&t));
}

#[test]
fn pretty_print_wraps_a_non_variable_argument() {
    let t = app(var("f"), app(var("g"), var("x")));
    assert_eq!(pretty_print(&t), "(f (g x))");
}

#[test]
fn pretty_print_follows_the_rendering_rules() {
    assert_eq!(pretty_print(&var("y")), "y");
    assert_eq!(pretty_print(&abs("x", var("x"))), "λx.x");
    // An application body takes parentheses.
    assert_eq!(pretty_print(&abs("x", app(var("x"), var("x")))), "λx.(x x)");
    // A top-level application is wrapped once more; a non-variable side
    // takes its own parentheses.
    assert_eq!(pretty_print(&app(abs("x", var("x")), var("y"))), "((λx.x) y)");
    assert_eq!(pretty_print(&app(var("f"), var("y"))), "(f y)");
    assert_eq!(pretty_print(&assign("id", abs("x", var("x")))), "id = λx.x;");
}
