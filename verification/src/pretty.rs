use vstd::prelude::*;
use vstd::string::StrSliceExecFns;
use vstd::string::StringExecFns;

use crate::ast::Expr;
use crate::ast::SpecExpr;
use crate::ast::exprs_model;
use crate::ast::lemma_exprs_model;
use crate::interpreter::SpecValue;
use crate::interpreter::Value;

verus! {

/// The text of an expression: variables bare, applications and sequences
/// parenthesized, lambdas as `L p1 p2. body`, definitions as `name = rhs`.
/// An application's two operands print as atoms of the grammar, so a
/// lambda or definition standing there gets its own parentheses.
pub open spec fn spec_print(e: SpecExpr) -> Seq<char>
    decreases e, 0int, 0int,
{
    match e {
        SpecExpr::Var(name) => name,
        SpecExpr::Lambda(params, body) => seq!['L', ' '] + spec_print_params(params) + seq![
            '.',
            ' ',
        ] + spec_print(*body),
        SpecExpr::Apply(func, arg) => seq!['('] + spec_print_operand(*func) + seq![' ']
            + spec_print_operand(*arg) + seq![')'],
        SpecExpr::Define(name, rhs) => name + seq![' ', '=', ' '] + spec_print(*rhs),
        SpecExpr::Sequence(items) => seq!['('] + spec_print_items(items, 0) + seq![')'],
    }
}

/// The text of an application operand.  The grammar limits operands to
/// atoms — a word or a parenthesized document — so a lambda or a
/// definition is wrapped in parentheses; every other form already prints
/// as an atom.
pub open spec fn spec_print_operand(e: SpecExpr) -> Seq<char>
    decreases e, 2int, 0int,
{
    match e {
        SpecExpr::Lambda(_params, _body) => seq!['('] + spec_print(e) + seq![')'],
        SpecExpr::Define(_name, _rhs) => seq!['('] + spec_print(e) + seq![')'],
        _ => spec_print(e),
    }
}

/// Parameter names separated by single spaces.
pub open spec fn spec_print_params(params: Seq<Seq<char>>) -> Seq<char>
    decreases params,
{
    if params.len() == 0 {
        Seq::empty()
    } else if params.len() == 1 {
        params[0]
    } else {
        params[0] + seq![' '] + spec_print_params(params.drop_first())
    }
}

/// The items from position `i` on, separated by `; `.
pub open spec fn spec_print_items(items: Seq<SpecExpr>, i: int) -> Seq<char>
    decreases items, 1int, items.len() - i,
{
    if i < 0 || i >= items.len() {
        Seq::empty()
    } else if i == items.len() - 1 {
        spec_print(items[i])
    } else {
        spec_print(items[i]) + seq![';', ' '] + spec_print_items(items, i + 1)
    }
}

/// The parameter names of `params` from position `i` on, `" "`-separated.
#[verifier::loop_isolation(false)]
fn print_params_from(params: &Vec<String>, i: usize) -> (r: String)
    requires
        i <= params@.len(),
    ensures
        r@ == spec_print_params(params.deep_view().skip(i as int)),
    decreases params@.len() - i,
{
    let ghost pd = params.deep_view();
    if i == params.len() {
        proof {
            assert(pd.skip(i as int).len() == 0);
        }
        String::new()
    } else if i + 1 == params.len() {
        proof {
            assert(pd.skip(i as int).len() == 1);
            assert(pd.skip(i as int)[0] == pd[i as int]);
        }
        params[i].clone()
    } else {
        let mut s = params[i].clone();
        s.append(" ");
        let rest = print_params_from(params, i + 1);
        s.append(rest.as_str());
        proof {
            reveal_strlit(" ");
            assert(pd.skip(i as int)[0] == pd[i as int]);
            assert(pd.skip(i as int).drop_first() =~= pd.skip(i as int + 1));
            assert(s@ =~= spec_print_params(pd.skip(i as int)));
        }
        s
    }
}

/// The text of an expression.
pub fn pretty_print_expr(expr: &Expr) -> (r: String)
    ensures
        r@ == spec_print(expr@),
    decreases expr, 0int, 0int,
{
    match expr {
        Expr::Var(name) => name.clone(),
        Expr::Lambda(params, body) => {
            let mut s = ("L ").to_owned();
            let ps = print_params_from(params, 0);
            s.append(ps.as_str());
            s.append(". ");
            let b = pretty_print_expr(&**body);
            s.append(b.as_str());
            proof {
                reveal_strlit("L ");
                reveal_strlit(". ");
                assert(params.deep_view().skip(0) =~= params.deep_view());
                assert(s@ =~= spec_print(expr@));
            }
            s
        },
        Expr::Apply(func, arg) => {
            let mut s = ("(").to_owned();
            let f = print_operand(&**func);
            s.append(f.as_str());
            s.append(" ");
            let a = print_operand(&**arg);
            s.append(a.as_str());
            s.append(")");
            proof {
                reveal_strlit("(");
                reveal_strlit(" ");
                reveal_strlit(")");
                assert(s@ =~= spec_print(expr@));
            }
            s
        },
        Expr::Define(name, rhs) => {
            let mut s = name.clone();
            s.append(" = ");
            let e = pretty_print_expr(&**rhs);
            s.append(e.as_str());
            proof {
                reveal_strlit(" = ");
                assert(s@ =~= spec_print(expr@));
            }
            s
        },
        Expr::Sequence(items) => {
            let mut s = ("(").to_owned();
            let inner = print_items_from(items, 0);
            s.append(inner.as_str());
            s.append(")");
            proof {
                reveal_strlit("(");
                reveal_strlit(")");
                assert(s@ =~= spec_print(expr@));
            }
            s
        },
    }
}

/// The text of an application operand: a lambda or definition wrapped
/// in parentheses, anything else as it prints.
fn print_operand(expr: &Expr) -> (r: String)
    ensures
        r@ == spec_print_operand(expr@),
    decreases expr, 2int, 0int,
{
    let wrap = match expr {
        Expr::Lambda(_params, _body) => true,
        Expr::Define(_name, _rhs) => true,
        _ => false,
    };
    if wrap {
        let mut s = ("(").to_owned();
        let inner = pretty_print_expr(expr);
        s.append(inner.as_str());
        s.append(")");
        proof {
            reveal_strlit("(");
            reveal_strlit(")");
            assert(s@ =~= spec_print_operand(expr@));
        }
        s
    } else {
        pretty_print_expr(expr)
    }
}

/// The text of a sequence's items from position `i` on.
#[verifier::loop_isolation(false)]
fn print_items_from(items: &Vec<Expr>, i: usize) -> (r: String)
    requires
        i <= items@.len(),
    ensures
        r@ == spec_print_items(exprs_model(items@), i as int),
    decreases items, 1int, items@.len() - i,
{
    let ghost im = exprs_model(items@);
    proof {
        lemma_exprs_model(items@);
    }
    if i == items.len() {
        String::new()
    } else if i + 1 == items.len() {
        pretty_print_expr(&items[i])
    } else {
        let mut s = pretty_print_expr(&items[i]);
        s.append("; ");
        let rest = print_items_from(items, i + 1);
        s.append(rest.as_str());
        proof {
            reveal_strlit("; ");
            assert(s@ =~= spec_print_items(im, i as int));
        }
        s
    }
}

/// A value as an expression: a closure becomes the lambda it would have
/// been written as; unit becomes the bare word `unit`.
pub open spec fn spec_to_expr(v: SpecValue) -> SpecExpr {
    match v {
        SpecValue::Closure(params, body, _env) => SpecExpr::Lambda(params, Box::new(body)),
        SpecValue::Unit => SpecExpr::Var("unit"@),
    }
}

/// Convert a value back into an expression, dropping any captured
/// environment.
pub fn to_expr(value: &Value) -> (r: Expr)
    ensures
        r@ == spec_to_expr(value@),
{
    match value {
        Value::Closure(params, body, _env) => {
            let ps = params.clone();
            proof {
                assert(ps.deep_view() =~= params.deep_view());
            }
            Expr::Lambda(ps, Box::new((**body).clone()))
        },
        Value::Unit => Expr::Var(("unit").to_owned()),
    }
}

/// The text of a value: the expression it converts to.
pub fn pretty_print_value(value: &Value) -> (r: String)
    ensures
        r@ == spec_print(spec_to_expr(value@)),
{
    let e = to_expr(value);
    pretty_print_expr(&e)
}

} // verus!
