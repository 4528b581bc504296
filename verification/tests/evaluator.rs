use lambda_eval::ast::Expr;
use lambda_eval::interpreter::{
    env_eq, eval, eval_document, expr_eq, value_eq, Env, EvalError, TraceMode, Value, STEP_CEILING,
};
use lambda_eval::parser::Parser;
use lambda_eval::pretty::pretty_print_value;

fn v(name: &str) -> Expr {
    Expr::Var(name.to_string())
}

fn lam(params: &[&str], body: Expr) -> Expr {
    Expr::Lambda(params.iter().map(|p| p.to_string()).collect(), Box::new(body))
}

fn app(f: Expr, a: Expr) -> Expr {
    Expr::Apply(Box::new(f), Box::new(a))
}

fn def(name: &str, rhs: Expr) -> Expr {
    Expr::Define(name.to_string(), Box::new(rhs))
}

fn identity(param: &str) -> Value {
    Value::Closure(vec![param.to_string()], Box::new(v(param)), Env::new())
}

#[test]
fn identity_application_returns_bound_closure() {
    let c = identity("a");
    let mut env = Env::new();
    env.insert("y".to_string(), c.clone());
    let mut steps: u64 = 0;
    let expr = app(lam(&["x"], v("x")), v("y"));
    let r = eval(&expr, &mut env, &mut steps).unwrap();
    assert_eq!(r, c);
    assert_eq!(steps, 1);
    // the environment is exactly as it was
    assert_eq!(env.len(), 1);
    assert_eq!(env.get(&"y".to_string()), Some(&c));
}

#[test]
fn currying_partial_then_full_application() {
    let va = identity("p");
    let vb = identity("q");
    let mut env = Env::new();
    env.insert("a".to_string(), va.clone());
    env.insert("b".to_string(), vb.clone());

    // (L x y . x) a  ==>  a closure waiting for y
    let inner = app(lam(&["x", "y"], v("x")), v("a"));
    let mut env1 = env.clone();
    let mut steps: u64 = 0;
    let r1 = eval(&inner, &mut env1, &mut steps).unwrap();
    let mut captured = env.clone();
    captured.insert("x".to_string(), va.clone());
    let expected = Value::Closure(vec!["y".to_string()], Box::new(v("x")), captured);
    assert_eq!(r1, expected);
    assert_eq!(steps, 1);

    // ((L x y . x) a) b  ==>  the value bound to a
    let outer = app(inner, v("b"));
    let mut env2 = env.clone();
    let mut steps2: u64 = 0;
    let r2 = eval(&outer, &mut env2, &mut steps2).unwrap();
    assert_eq!(r2, va);
    assert_eq!(steps2, 2);
    assert_eq!(env2, env);
}

#[test]
fn capture_avoidance_z_binding_is_used() {
    // (L x . (L z . (x z))) z  applied further to w: the free z must mean
    // the outer binding (an identity function), never the inner parameter
    let vz = identity("a");
    let cw = identity("b");
    let mut env = Env::new();
    env.insert("z".to_string(), vz.clone());
    env.insert("w".to_string(), cw.clone());
    let expr = app(app(lam(&["x"], lam(&["z"], app(v("x"), v("z")))), v("z")), v("w"));
    let mut steps: u64 = 0;
    let r = eval(&expr, &mut env, &mut steps).unwrap();
    assert_eq!(r, cw);
}

#[test]
fn scoped_defines_are_restored() {
    let v0 = identity("a");
    let mut env = Env::new();
    env.insert("x".to_string(), v0.clone());

    let seq = Expr::Sequence(vec![
        def("x", lam(&["p"], v("p"))),
        def("x", lam(&["q"], v("q"))),
        v("x"),
    ]);
    let mut steps: u64 = 0;
    let r = eval(&seq, &mut env, &mut steps).unwrap();

    // the sequence's own result reflects the second definition,
    // whose closure captured the environment holding the first
    let mut env_after_first = Env::new();
    env_after_first.insert(
        "x".to_string(),
        Value::Closure(vec!["p".to_string()], Box::new(v("p")), {
            let mut e = Env::new();
            e.insert("x".to_string(), v0.clone());
            e
        }),
    );
    let c2 = Value::Closure(vec!["q".to_string()], Box::new(v("q")), env_after_first);
    assert_eq!(r, c2);

    // the surrounding environment got its x back
    let mut expected_env = Env::new();
    expected_env.insert("x".to_string(), v0);
    assert_eq!(env, expected_env);
}

#[test]
fn divergence_is_detected() {
    let omega = lam(&["x"], app(v("x"), v("x")));
    let expr = app(omega.clone(), omega);
    let mut env = Env::new();
    // each reduction of the self-application deepens the call stack, so
    // spend most of the budget up front: the guard, not the stack, must
    // stop the loop, and it must stop it at exactly the ceiling
    let mut steps: u64 = STEP_CEILING - 100;
    let r = eval(&expr, &mut env, &mut steps);
    assert_eq!(r, Err(EvalError::DivergenceDetected));
    assert_eq!(steps, STEP_CEILING + 1);
}

#[test]
fn round_trip_of_an_evaluated_program() {
    let source = "id = L a . a; id id";
    let mut parser = Parser::new(source);
    let ast = parser.parse().unwrap();
    let mut env = Env::new();
    let mut steps: u64 = 0;
    let value = eval_document(&ast, &mut env, &mut steps).unwrap();
    assert_eq!(value, identity("a"));

    let printed = pretty_print_value(&value);
    assert_eq!(printed, "L a. a");

    let mut parser2 = Parser::new(&printed);
    let ast2 = parser2.parse().unwrap();
    assert_eq!(ast2, lam(&["a"], v("a")));

    let mut env2 = Env::new();
    let mut steps2: u64 = 0;
    let value2 = eval_document(&ast2, &mut env2, &mut steps2).unwrap();
    assert_eq!(value2, value);
}

#[test]
fn round_trip_of_a_lambda_argument_value() {
    // the value's body applies a variable to a lambda, which the printer
    // must parenthesize for the text to parse again
    let source = "L a . a (L b . b)";
    let mut parser = Parser::new(source);
    let ast = parser.parse().unwrap();
    let mut env = Env::new();
    let mut steps: u64 = 0;
    let value = eval_document(&ast, &mut env, &mut steps).unwrap();

    let printed = pretty_print_value(&value);
    assert_eq!(printed, "L a. (a (L b. b))");

    let mut parser2 = Parser::new(&printed);
    let ast2 = parser2.parse().unwrap();
    assert_eq!(
        ast2,
        lam(&["a"], app(v("a"), lam(&["b"], v("b"))))
    );

    let mut env2 = Env::new();
    let mut steps2: u64 = 0;
    let value2 = eval_document(&ast2, &mut env2, &mut steps2).unwrap();
    assert_eq!(value2, value);
}

#[test]
fn unbound_variable_error() {
    let mut env = Env::new();
    let mut steps: u64 = 0;
    let r = eval(&v("nope"), &mut env, &mut steps);
    assert_eq!(r, Err(EvalError::UnboundVariable("nope".to_string())));
}

#[test]
fn not_a_function_error() {
    let mut env = Env::new();
    env.insert("y".to_string(), identity("a"));
    let mut steps: u64 = 0;
    let r = eval(&app(Expr::Sequence(vec![]), v("y")), &mut env, &mut steps);
    assert_eq!(r, Err(EvalError::NotAFunction));
}

#[test]
fn too_many_arguments_error() {
    let mut env = Env::new();
    env.insert("y".to_string(), identity("a"));
    let mut steps: u64 = 0;
    let zero_param = Expr::Lambda(vec![], Box::new(v("x")));
    let r = eval(&app(zero_param, v("y")), &mut env, &mut steps);
    assert_eq!(r, Err(EvalError::TooManyArguments));
}

#[test]
fn empty_sequence_evaluates_to_unit() {
    let mut env = Env::new();
    let mut steps: u64 = 0;
    let r = eval(&Expr::Sequence(vec![]), &mut env, &mut steps).unwrap();
    assert_eq!(r, Value::Unit);
}

#[test]
fn top_level_defines_persist() {
    let mut parser = Parser::new("x = L a . a; x");
    let ast = parser.parse().unwrap();
    let mut env = Env::new();
    let mut steps: u64 = 0;
    let r = eval_document(&ast, &mut env, &mut steps).unwrap();
    assert_eq!(r, identity("a"));
    assert_eq!(env.len(), 1);
    assert_eq!(env.entry_at(0).0, "x".to_string());
    assert_eq!(env.get(&"x".to_string()), Some(&identity("a")));
}

#[test]
fn closure_snapshot_is_independent_of_later_mutation() {
    // a closure keeps the environment it captured, even after the
    // defining environment moves on
    let mut parser = Parser::new("x = L a . a; f = L b . x; x = L c . c; f f");
    let ast = parser.parse().unwrap();
    let mut env = Env::new();
    let mut steps: u64 = 0;
    let r = eval_document(&ast, &mut env, &mut steps).unwrap();
    // f's body x still means the first definition
    match r {
        Value::Closure(params, body, _captured) => {
            assert_eq!(params, vec!["a".to_string()]);
            assert_eq!(*body, v("a"));
        }
        Value::Unit => panic!("expected a closure"),
    }
}

#[test]
fn env_insert_overwrites_and_remove_deletes() {
    let mut env = Env::new();
    env.insert("x".to_string(), identity("a"));
    env.insert("y".to_string(), identity("b"));
    env.insert("x".to_string(), identity("c"));
    assert_eq!(env.len(), 2);
    assert_eq!(env.get(&"x".to_string()), Some(&identity("c")));
    assert_eq!(env.entry_at(0).0, "x".to_string());
    env.remove(&"x".to_string());
    assert_eq!(env.len(), 1);
    assert_eq!(env.get(&"x".to_string()), None);
    assert_eq!(env.get(&"y".to_string()), Some(&identity("b")));
}

#[test]
fn all_defines_sequence_evaluates_to_unit() {
    // a nested sequence of nothing but defines produces no value
    let mut env = Env::new();
    let mut steps: u64 = 0;
    let seq = Expr::Sequence(vec![def("x", lam(&["a"], v("a")))]);
    let r = eval(&seq, &mut env, &mut steps).unwrap();
    assert_eq!(r, Value::Unit);
    // and its binding did not leak
    assert_eq!(env.len(), 0);
}

#[test]
fn top_level_trailing_define_is_the_programs_value() {
    let mut parser = Parser::new("x = L a . a");
    let ast = parser.parse().unwrap();
    let mut env = Env::new();
    let mut steps: u64 = 0;
    let r = eval_document(&ast, &mut env, &mut steps).unwrap();
    assert_eq!(r, identity("a"));
    assert_eq!(env.len(), 1);
}

#[test]
fn bound_name_finds_a_structurally_equal_value() {
    let mut env = Env::new();
    env.insert("id".to_string(), identity("a"));
    env.insert("k".to_string(), identity("b"));
    assert_eq!(env.bound_name(&identity("b")), Some("k".to_string()));
    assert_eq!(env.bound_name(&identity("c")), None);
    assert_eq!(env.bound_name(&Value::Unit), None);
}

#[test]
fn structural_equality_helpers_decide_equality() {
    let e1 = app(lam(&["x"], v("x")), v("y"));
    let e2 = app(lam(&["x"], v("x")), v("y"));
    let e3 = app(lam(&["x"], v("x")), v("z"));
    assert!(expr_eq(&e1, &e2));
    assert!(!expr_eq(&e1, &e3));
    assert!(!expr_eq(&v("x"), &lam(&["x"], v("x"))));

    assert!(value_eq(&identity("a"), &identity("a")));
    assert!(!value_eq(&identity("a"), &identity("b")));
    assert!(!value_eq(&identity("a"), &Value::Unit));

    let mut env1 = Env::new();
    env1.insert("x".to_string(), identity("a"));
    let env2 = env1.clone();
    assert!(env_eq(&env1, &env2));
    assert!(!env_eq(&env1, &Env::new()));
}

#[test]
fn trace_modes_are_distinct() {
    assert_eq!(TraceMode::Off, TraceMode::Off);
    assert_ne!(TraceMode::Last, TraceMode::All);
    assert_ne!(TraceMode::Off, TraceMode::Last);
}
