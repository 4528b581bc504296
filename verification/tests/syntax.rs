use lambda_eval::ast::Expr;
use lambda_eval::normalize::normalize;
use lambda_eval::parser::{is_word_char, ParseError, Parser};
use lambda_eval::pretty::{pretty_print_expr, pretty_print_value, to_expr};
use lambda_eval::interpreter::{Env, Value};
use lambda_eval::subst::{free_occurs, fresh_var_name, substitute};
use lambda_eval::text::str_eq;
use lambda_eval::tokenizer::{tokenize, Token, TokenizeError};

fn v(name: &str) -> Expr {
    Expr::Var(name.to_string())
}

fn lam(params: &[&str], body: Expr) -> Expr {
    Expr::Lambda(params.iter().map(|p| p.to_string()).collect(), Box::new(body))
}

fn app(f: Expr, a: Expr) -> Expr {
    Expr::Apply(Box::new(f), Box::new(a))
}

fn def(name: &str, rhs: Expr) -> Expr {
    Expr::Define(name.to_string(), Box::new(rhs))
}

fn parse(source: &str) -> Result<Expr, ParseError> {
    Parser::new(source).parse()
}

#[test]
fn parse_application_and_lambda() {
    assert_eq!(parse("(f x)").unwrap(), app(v("f"), v("x")));
    assert_eq!(parse("L x . x").unwrap(), lam(&["x"], v("x")));
    assert_eq!(parse("L x y . (x y)").unwrap(), lam(&["x", "y"], app(v("x"), v("y"))));
    assert_eq!(parse("x = L a . a").unwrap(), def("x", lam(&["a"], v("a"))));
}

#[test]
fn parse_application_is_left_associative() {
    // juxtaposition associates to the left: f g h reads as (f g) h
    assert_eq!(parse("f g h").unwrap(), app(app(v("f"), v("g")), v("h")));
    assert_eq!(parse("f (g) h").unwrap(), app(app(v("f"), v("g")), v("h")));
}

#[test]
fn parse_parenthesized_atom_heads_an_application() {
    assert_eq!(
        parse("(L x . x) y").unwrap(),
        app(lam(&["x"], v("x")), v("y"))
    );
    assert_eq!(
        parse("((f a) b)").unwrap(),
        app(app(v("f"), v("a")), v("b"))
    );
}

#[test]
fn parse_lambda_argument_needs_parentheses() {
    // an atom is a word or a parenthesized document, so a lambda in
    // argument position must be wrapped
    assert_eq!(
        parse("f (L x . x)").unwrap(),
        app(v("f"), lam(&["x"], v("x")))
    );
}

#[test]
fn parse_rejects_leftover_input() {
    assert_eq!(parse("a )"), Err(ParseError::UnexpectedChar));
    assert_eq!(parse("f L x . x"), Err(ParseError::UnexpectedChar));
}

#[test]
fn parse_document_sequences() {
    assert_eq!(parse("a; b").unwrap(), Expr::Sequence(vec![v("a"), v("b")]));
    assert_eq!(parse("a").unwrap(), v("a"));
    assert_eq!(parse("").unwrap(), Expr::Sequence(vec![]));
    assert_eq!(
        parse("x = y; x").unwrap(),
        Expr::Sequence(vec![def("x", v("y")), v("x")])
    );
}

#[test]
fn parse_errors() {
    assert_eq!(parse("@"), Err(ParseError::UnexpectedChar));
    assert_eq!(parse("x ="), Err(ParseError::UnexpectedEnd));
    assert_eq!(parse("(x"), Err(ParseError::ExpectedCloseParen));
    assert_eq!(parse("L x y"), Err(ParseError::ExpectedDot));
    assert_eq!(parse("L . x"), Err(ParseError::ExpectedWord));
}

#[test]
fn word_chars() {
    assert!(is_word_char('a'));
    assert!(is_word_char('Z'));
    assert!(is_word_char('7'));
    assert!(is_word_char('_'));
    assert!(!is_word_char('.'));
    assert!(!is_word_char('#'));
    assert!(!is_word_char(' '));
}

#[test]
fn tokenize_a_program() {
    let toks = tokenize("L x . (x y2); z").unwrap();
    assert_eq!(
        toks,
        vec![
            Token::Lambda,
            Token::Word("x".to_string()),
            Token::Dot,
            Token::LParen,
            Token::Word("x".to_string()),
            Token::Word("y2".to_string()),
            Token::RParen,
            Token::Semicolon,
            Token::Word("z".to_string()),
        ]
    );
}

#[test]
fn tokenize_lone_l_is_the_keyword() {
    assert_eq!(tokenize("L").unwrap(), vec![Token::Lambda]);
    assert_eq!(tokenize("Lx").unwrap(), vec![Token::Word("Lx".to_string())]);
}

#[test]
fn tokenize_rejects_strange_characters() {
    assert_eq!(tokenize("x @"), Err(TokenizeError::UnexpectedChar('@')));
}

#[test]
fn pretty_print_forms() {
    assert_eq!(pretty_print_expr(&v("x")), "x");
    assert_eq!(pretty_print_expr(&app(v("f"), v("x"))), "(f x)");
    assert_eq!(
        pretty_print_expr(&lam(&["x", "y"], app(v("x"), v("y")))),
        "L x y. (x y)"
    );
    assert_eq!(pretty_print_expr(&def("x", v("y"))), "x = y");
    assert_eq!(
        pretty_print_expr(&Expr::Sequence(vec![v("a"), v("b")])),
        "(a; b)"
    );
    // a lambda or define standing in an application prints as an atom
    assert_eq!(
        pretty_print_expr(&app(v("f"), lam(&["x"], v("x")))),
        "(f (L x. x))"
    );
    assert_eq!(
        pretty_print_expr(&app(lam(&["x"], v("x")), v("y"))),
        "((L x. x) y)"
    );
}

#[test]
fn pretty_print_values() {
    assert_eq!(pretty_print_value(&Value::Unit), "unit");
    let c = Value::Closure(vec!["x".to_string()], Box::new(v("x")), Env::new());
    assert_eq!(pretty_print_value(&c), "L x. x");
    assert_eq!(to_expr(&c), lam(&["x"], v("x")));
    assert_eq!(to_expr(&Value::Unit), v("unit"));
}

#[test]
fn parse_after_print_is_identity_on_these() {
    let samples = vec![
        v("x"),
        app(v("f"), v("x")),
        app(app(v("f"), v("a")), v("b")),
        lam(&["x"], v("x")),
        lam(&["x", "y"], app(v("x"), app(v("y"), v("x")))),
        def("x", lam(&["a"], v("a"))),
        Expr::Sequence(vec![def("x", v("y")), v("x")]),
        app(v("f"), lam(&["x"], v("x"))),
        app(lam(&["x"], v("x")), v("y")),
        app(v("f"), def("x", v("y"))),
    ];
    for e in samples {
        let printed = pretty_print_expr(&e);
        assert_eq!(parse(&printed).unwrap(), e);
    }
}

#[test]
fn substitute_replaces_free_occurrences() {
    let mut ctr: u64 = 0;
    let r = substitute(&v("x"), "x", &v("y"), &mut ctr);
    assert_eq!(r, v("y"));
    assert_eq!(ctr, 0);

    let mut ctr2: u64 = 0;
    let r2 = substitute(&app(v("x"), v("z")), "x", &v("y"), &mut ctr2);
    assert_eq!(r2, app(v("y"), v("z")));
}

#[test]
fn substitute_avoids_capture() {
    // (L z . (x z))[x := z]: the bound z is renamed so the replacement's
    // z stays free
    let mut ctr: u64 = 0;
    let e = lam(&["z"], app(v("x"), v("z")));
    let r = substitute(&e, "x", &v("z"), &mut ctr);
    assert_eq!(r, lam(&["z#0"], app(v("z"), v("z#0"))));
    assert_eq!(ctr, 1);
}

#[test]
fn substitute_under_shadowing_parameter() {
    // (L x . x)[x := y]: the parameter shadows x, so nothing happens
    let mut ctr: u64 = 5;
    let r = substitute(&lam(&["x"], v("x")), "x", &v("y"), &mut ctr);
    assert_eq!(r, lam(&["x"], v("x")));
    assert_eq!(ctr, 5);
}

#[test]
fn substitute_of_absent_variable_is_identity() {
    // (L y . y)[x := y]: x occurs nowhere, so the expression comes back
    // unchanged — in particular y is not renamed
    let mut ctr: u64 = 0;
    let e = lam(&["y"], v("y"));
    let r = substitute(&e, "x", &v("y"), &mut ctr);
    assert_eq!(r, e);
    assert_eq!(ctr, 0);
}

#[test]
fn substitute_leaves_define_names_alone() {
    let mut ctr: u64 = 0;
    let r = substitute(&def("x", v("x")), "x", &v("y"), &mut ctr);
    assert_eq!(r, def("x", v("y")));
}

#[test]
fn fresh_names_carry_base_and_id() {
    assert_eq!(fresh_var_name("x", 42), "x#42");
    assert_eq!(fresh_var_name("ab", 0), "ab#0");
    assert_eq!(fresh_var_name("v", 907), "v#907");
}

#[test]
fn free_occurrence_checks() {
    assert!(free_occurs(&v("x"), "x"));
    assert!(!free_occurs(&lam(&["x"], v("x")), "x"));
    assert!(free_occurs(&lam(&["x"], v("y")), "y"));
    assert!(free_occurs(&Expr::Sequence(vec![v("a"), v("b")]), "b"));
    assert!(!free_occurs(&Expr::Sequence(vec![]), "b"));
}

#[test]
fn normalize_renames_binders_in_order() {
    let e = lam(&["x"], lam(&["y"], app(v("x"), v("y"))));
    let expected = lam(&["v0"], lam(&["v1"], app(v("v0"), v("v1"))));
    assert_eq!(normalize(&e), expected);
}

#[test]
fn normalize_restores_shadowed_renames() {
    // L x . ((L x . x) x): after the inner lambda, the outer rename for
    // x is in force again
    let e = lam(&["x"], app(lam(&["x"], v("x")), v("x")));
    let expected = lam(&["v0"], app(lam(&["v1"], v("v1")), v("v0")));
    assert_eq!(normalize(&e), expected);
}

#[test]
fn normalize_identifies_alpha_equivalent_terms() {
    let a = lam(&["a"], lam(&["b"], app(v("a"), v("b"))));
    let b = lam(&["p"], lam(&["q"], app(v("p"), v("q"))));
    assert_eq!(normalize(&a), normalize(&b));
    let c = lam(&["p"], lam(&["q"], app(v("q"), v("p"))));
    assert_ne!(normalize(&a), normalize(&c));
}

#[test]
fn string_equality_by_characters() {
    assert!(str_eq("abc", "abc"));
    assert!(!str_eq("abc", "abd"));
    assert!(!str_eq("abc", "ab"));
    assert!(str_eq("", ""));
}
