use vstd::prelude::*;
use vstd::string::StrSliceExecFns;
use vstd::string::StringExecFns;

use crate::ast::Expr;
use crate::ast::SpecExpr;
use crate::ast::exprs_model;
use crate::ast::free_in;
use crate::ast::free_in_list;
use crate::ast::lemma_exprs_model;
use crate::text::contains_str;
use crate::text::str_eq;

verus! {

/// The decimal digits of `n`, most significant first.
pub open spec fn spec_digits(n: nat) -> Seq<char>
    decreases n,
{
    if n < 10 {
        seq![digit_char(n)]
    } else {
        spec_digits(n / 10).push(digit_char(n % 10))
    }
}

/// The character for one decimal digit.
pub open spec fn digit_char(d: nat) -> char {
    if d == 0 {
        '0'
    } else if d == 1 {
        '1'
    } else if d == 2 {
        '2'
    } else if d == 3 {
        '3'
    } else if d == 4 {
        '4'
    } else if d == 5 {
        '5'
    } else if d == 6 {
        '6'
    } else if d == 7 {
        '7'
    } else if d == 8 {
        '8'
    } else {
        '9'
    }
}

/// The generated name `base#id`.  `#` is not a word character, so a
/// generated name can never collide with a name from source text, and two
/// generated names with distinct ids differ.
pub open spec fn spec_fresh_name(base: Seq<char>, id: nat) -> Seq<char> {
    base + seq!['#'] + spec_digits(id)
}

/// A generated name is longer than its base and carries `#` right after
/// it, so it can never equal a source-text word.
pub proof fn lemma_fresh_name_shape(base: Seq<char>, id: nat)
    ensures
        spec_fresh_name(base, id).len() > base.len(),
        spec_fresh_name(base, id)[base.len() as int] == '#',
{
    assert((base + seq!['#'])[base.len() as int] == '#');
}

/// The freshness guarantee, with its hypothesis spelled out: a generated
/// name never collides with a name that holds no `#`.  Every word of
/// source text is such a name (`#` is not a word character), so within a
/// substitution over parsed programs the generated names are fresh.  An
/// expression that already holds generated-style names with ids at or
/// above the counter sits outside this hypothesis, and no freshness is
/// promised there.
pub proof fn lemma_generated_name_is_fresh(w: Seq<char>, base: Seq<char>, id: nat)
    requires
        !w.contains('#'),
    ensures
        w != spec_fresh_name(base, id),
{
    lemma_fresh_name_shape(base, id);
    if w == spec_fresh_name(base, id) {
        assert(w[base.len() as int] == '#');
        assert(w.contains('#'));
    }
}

/// `e` with every free occurrence of `from` replaced by the variable `to`.
/// A lambda whose parameters list `from` shadows it, and is left alone.
pub open spec fn spec_rename(e: SpecExpr, from: Seq<char>, to: Seq<char>) -> SpecExpr
    decreases e,
{
    match e {
        SpecExpr::Var(name) => if name == from {
            SpecExpr::Var(to)
        } else {
            e
        },
        SpecExpr::Lambda(params, body) => if params.contains(from) {
            e
        } else {
            SpecExpr::Lambda(params, Box::new(spec_rename(*body, from, to)))
        },
        SpecExpr::Apply(func, arg) => SpecExpr::Apply(
            Box::new(spec_rename(*func, from, to)),
            Box::new(spec_rename(*arg, from, to)),
        ),
        SpecExpr::Define(name, rhs) => SpecExpr::Define(
            name,
            Box::new(spec_rename(*rhs, from, to)),
        ),
        SpecExpr::Sequence(items) => SpecExpr::Sequence(spec_rename_list(items, from, to)),
    }
}

/// `spec_rename` over a list of expressions.
pub open spec fn spec_rename_list(items: Seq<SpecExpr>, from: Seq<char>, to: Seq<char>) -> Seq<
    SpecExpr,
>
    decreases items,
{
    if items.len() == 0 {
        items
    } else {
        seq![spec_rename(items[0], from, to)] + spec_rename_list(items.drop_first(), from, to)
    }
}

/// The size of an expression: one for each node, plus one for each lambda
/// parameter.  Substitution's termination and its bound on generated
/// names both rest on this measure.
pub open spec fn expr_size(e: SpecExpr) -> nat
    decreases e,
{
    match e {
        SpecExpr::Var(_name) => 1,
        SpecExpr::Lambda(params, body) => 1 + params.len() + expr_size(*body),
        SpecExpr::Apply(func, arg) => 1 + expr_size(*func) + expr_size(*arg),
        SpecExpr::Define(_name, rhs) => 1 + expr_size(*rhs),
        SpecExpr::Sequence(items) => 1 + exprs_size(items),
    }
}

/// The summed size of a list of expressions.
pub open spec fn exprs_size(items: Seq<SpecExpr>) -> nat
    decreases items,
{
    if items.len() == 0 {
        0
    } else {
        expr_size(items[0]) + exprs_size(items.drop_first())
    }
}

/// Every expression has positive size.
pub proof fn lemma_expr_size_pos(e: SpecExpr)
    ensures
        expr_size(e) >= 1,
{
}

/// Renaming a variable does not change an expression's size.
pub proof fn lemma_rename_size(e: SpecExpr, from: Seq<char>, to: Seq<char>)
    ensures
        expr_size(spec_rename(e, from, to)) == expr_size(e),
    decreases e,
{
    match e {
        SpecExpr::Lambda(params, body) => {
            if !params.contains(from) {
                lemma_rename_size(*body, from, to);
            }
        },
        SpecExpr::Apply(func, arg) => {
            lemma_rename_size(*func, from, to);
            lemma_rename_size(*arg, from, to);
        },
        SpecExpr::Define(_name, rhs) => {
            lemma_rename_size(*rhs, from, to);
        },
        SpecExpr::Sequence(items) => {
            lemma_rename_list_size(items, from, to);
        },
        _ => {},
    }
}

/// Renaming preserves the size of each expression in a list.
pub proof fn lemma_rename_list_size(items: Seq<SpecExpr>, from: Seq<char>, to: Seq<char>)
    ensures
        exprs_size(spec_rename_list(items, from, to)) == exprs_size(items),
        spec_rename_list(items, from, to).len() == items.len(),
    decreases items,
{
    if items.len() > 0 {
        lemma_rename_size(items[0], from, to);
        lemma_rename_list_size(items.drop_first(), from, to);
        assert(spec_rename_list(items, from, to).drop_first() =~= spec_rename_list(
            items.drop_first(),
            from,
            to,
        ));
    }
}

/// Walk a lambda's parameters before a substitution descends into its
/// body.  A parameter that collides with a name free in the replacement
/// is renamed to a guaranteed-fresh name throughout the body, so the
/// replacement can land under the binder without being captured.  Yields
/// the rewritten parameter list, the rewritten body, and the advanced
/// fresh-name counter.
pub open spec fn rename_params(
    params: Seq<Seq<char>>,
    body: SpecExpr,
    repl: SpecExpr,
    ctr: nat,
) -> (Seq<Seq<char>>, SpecExpr, nat)
    decreases params,
{
    if params.len() == 0 {
        (params, body, ctr)
    } else {
        let p = params[0];
        if free_in(repl, p) {
            let fresh = spec_fresh_name(p, ctr);
            let body2 = spec_rename(body, p, fresh);
            let r = rename_params(params.drop_first(), body2, repl, ctr + 1);
            (seq![fresh] + r.0, r.1, r.2)
        } else {
            let r = rename_params(params.drop_first(), body, repl, ctr);
            (seq![p] + r.0, r.1, r.2)
        }
    }
}

/// The parameter walk keeps the body's size, keeps the parameter count,
/// and advances the counter by at most one per parameter.
pub proof fn lemma_rename_params_size(
    params: Seq<Seq<char>>,
    body: SpecExpr,
    repl: SpecExpr,
    ctr: nat,
)
    ensures
        expr_size(rename_params(params, body, repl, ctr).1) == expr_size(body),
        rename_params(params, body, repl, ctr).0.len() == params.len(),
        ctr <= rename_params(params, body, repl, ctr).2 <= ctr + params.len(),
    decreases params,
{
    if params.len() > 0 {
        let p = params[0];
        if free_in(repl, p) {
            let fresh = spec_fresh_name(p, ctr);
            let body2 = spec_rename(body, p, fresh);
            lemma_rename_size(body, p, fresh);
            lemma_rename_params_size(params.drop_first(), body2, repl, ctr + 1);
        } else {
            lemma_rename_params_size(params.drop_first(), body, repl, ctr);
        }
    }
}

/// Capture-avoiding substitution: `e` with `repl` substituted for every
/// free occurrence of `var`.  A lambda in which `var` is not free —
/// because a parameter shadows it or because it occurs nowhere in the
/// body — is left entirely alone, so substituting an absent variable is
/// the identity.  Where the substitution does descend, parameters that
/// collide with names free in `repl` are first renamed to fresh names
/// drawn from `ctr`.  Yields the rewritten expression and the advanced
/// counter.
pub open spec fn spec_subst(e: SpecExpr, var: Seq<char>, repl: SpecExpr, ctr: nat) -> (
    SpecExpr,
    nat,
)
    decreases expr_size(e), 0int,
{
    match e {
        SpecExpr::Var(name) => if name == var {
            (repl, ctr)
        } else {
            (e, ctr)
        },
        SpecExpr::Apply(func, arg) => {
            let rf = spec_subst(*func, var, repl, ctr);
            let ra = spec_subst(*arg, var, repl, rf.1);
            (SpecExpr::Apply(Box::new(rf.0), Box::new(ra.0)), ra.1)
        },
        SpecExpr::Lambda(params, body) => {
            if params.contains(var) || !free_in(*body, var) {
                (e, ctr)
            } else {
                proof {
                    lemma_rename_params_size(params, *body, repl, ctr);
                }
                let r = rename_params(params, *body, repl, ctr);
                let rb = spec_subst(r.1, var, repl, r.2);
                (SpecExpr::Lambda(r.0, Box::new(rb.0)), rb.1)
            }
        },
        SpecExpr::Define(name, rhs) => {
            let rr = spec_subst(*rhs, var, repl, ctr);
            (SpecExpr::Define(name, Box::new(rr.0)), rr.1)
        },
        SpecExpr::Sequence(items) => {
            let rl = spec_subst_list(items, var, repl, ctr);
            (SpecExpr::Sequence(rl.0), rl.1)
        },
    }
}

/// `spec_subst` over a list of expressions, threading the counter left to
/// right.
pub open spec fn spec_subst_list(
    items: Seq<SpecExpr>,
    var: Seq<char>,
    repl: SpecExpr,
    ctr: nat,
) -> (Seq<SpecExpr>, nat)
    decreases exprs_size(items), 1int,
{
    if items.len() == 0 {
        (items, ctr)
    } else {
        proof {
            lemma_expr_size_pos(items[0]);
        }
        let r0 = spec_subst(items[0], var, repl, ctr);
        let rr = spec_subst_list(items.drop_first(), var, repl, r0.1);
        (seq![r0.0] + rr.0, rr.1)
    }
}

/// Substitution advances the fresh-name counter, by at most the size of
/// the expression it walks.
pub proof fn lemma_subst_ctr(e: SpecExpr, var: Seq<char>, repl: SpecExpr, ctr: nat)
    ensures
        ctr <= spec_subst(e, var, repl, ctr).1 <= ctr + expr_size(e),
    decreases expr_size(e), 0int,
{
    match e {
        SpecExpr::Apply(func, arg) => {
            let rf = spec_subst(*func, var, repl, ctr);
            lemma_subst_ctr(*func, var, repl, ctr);
            lemma_subst_ctr(*arg, var, repl, rf.1);
        },
        SpecExpr::Lambda(params, body) => {
            if !(params.contains(var) || !free_in(*body, var)) {
                lemma_rename_params_size(params, *body, repl, ctr);
                let r = rename_params(params, *body, repl, ctr);
                lemma_subst_ctr(r.1, var, repl, r.2);
            }
        },
        SpecExpr::Define(_name, rhs) => {
            lemma_subst_ctr(*rhs, var, repl, ctr);
        },
        SpecExpr::Sequence(items) => {
            lemma_subst_list_ctr(items, var, repl, ctr);
        },
        _ => {},
    }
}

/// As `lemma_subst_ctr`, for a list of expressions.
pub proof fn lemma_subst_list_ctr(items: Seq<SpecExpr>, var: Seq<char>, repl: SpecExpr, ctr: nat)
    ensures
        ctr <= spec_subst_list(items, var, repl, ctr).1 <= ctr + exprs_size(items),
    decreases exprs_size(items), 1int,
{
    if items.len() > 0 {
        lemma_expr_size_pos(items[0]);
        let r0 = spec_subst(items[0], var, repl, ctr);
        lemma_subst_ctr(items[0], var, repl, ctr);
        lemma_subst_list_ctr(items.drop_first(), var, repl, r0.1);
    }
}

/// The size of each list element is bounded by the list's summed size.
pub proof fn lemma_exprs_size_elem(items: Seq<SpecExpr>, i: int)
    requires
        0 <= i < items.len(),
    ensures
        expr_size(items[i]) <= exprs_size(items),
    decreases items,
{
    if i > 0 {
        lemma_exprs_size_elem(items.drop_first(), i - 1);
    }
}

/// Append the character for one decimal digit.
fn append_digit(s: &mut String, d: u64)
    requires
        d < 10,
    ensures
        final(s)@ == old(s)@.push(digit_char(d as nat)),
{
    let ghost mid = old(s)@;
    match d {
        0 => {
            s.append("0");
            proof {
                reveal_strlit("0");
            }
        },
        1 => {
            s.append("1");
            proof {
                reveal_strlit("1");
            }
        },
        2 => {
            s.append("2");
            proof {
                reveal_strlit("2");
            }
        },
        3 => {
            s.append("3");
            proof {
                reveal_strlit("3");
            }
        },
        4 => {
            s.append("4");
            proof {
                reveal_strlit("4");
            }
        },
        5 => {
            s.append("5");
            proof {
                reveal_strlit("5");
            }
        },
        6 => {
            s.append("6");
            proof {
                reveal_strlit("6");
            }
        },
        7 => {
            s.append("7");
            proof {
                reveal_strlit("7");
            }
        },
        8 => {
            s.append("8");
            proof {
                reveal_strlit("8");
            }
        },
        _ => {
            s.append("9");
            proof {
                reveal_strlit("9");
            }
        },
    }
    proof {
        assert(s@ =~= mid.push(digit_char(d as nat)));
    }
}

/// Append the decimal digits of `n`.
pub(crate) fn append_digits(s: &mut String, n: u64)
    ensures
        final(s)@ == old(s)@ + spec_digits(n as nat),
    decreases n,
{
    if n >= 10 {
        append_digits(s, n / 10);
    }
    append_digit(s, n % 10);
    proof {
        if n < 10 {
            assert(s@ =~= old(s)@ + spec_digits(n as nat));
        } else {
            assert(s@ =~= old(s)@ + spec_digits(n as nat));
        }
    }
}

/// The generated name `base#id`, never a collision with any source-text
/// word (no word contains `#`) nor with a name generated from another id.
pub fn fresh_var_name(base: &str, id: u64) -> (r: String)
    ensures
        r@ == spec_fresh_name(base@, id as nat),
{
    let mut s = base.to_owned();
    s.append("#");
    append_digits(&mut s, id);
    proof {
        reveal_strlit("#");
        assert(s@ =~= spec_fresh_name(base@, id as nat));
    }
    s
}

/// Does `x` occur free in `expr`?
#[verifier::loop_isolation(false)]
pub fn free_occurs(expr: &Expr, x: &str) -> (r: bool)
    ensures
        r == free_in(expr@, x@),
    decreases expr,
{
    match expr {
        Expr::Var(name) => str_eq(name.as_str(), x),
        Expr::Lambda(params, body) => !contains_str(params, x) && free_occurs(&**body, x),
        Expr::Apply(func, arg) => free_occurs(&**func, x) || free_occurs(&**arg, x),
        Expr::Define(_name, rhs) => free_occurs(&**rhs, x),
        Expr::Sequence(items) => free_occurs_list(items, x),
    }
}

/// Does `x` occur free in some element of `items`?
#[verifier::loop_isolation(false)]
fn free_occurs_list(items: &Vec<Expr>, x: &str) -> (r: bool)
    ensures
        r == free_in_list(exprs_model(items@), x@),
    decreases items,
{
    let ghost itemsv = exprs_model(items@);
    proof {
        lemma_exprs_model(items@);
        assert(itemsv.skip(0) =~= itemsv);
    }
    let mut i: usize = 0;
    while i < items.len()
        invariant
            i <= items@.len(),
            free_in_list(itemsv.skip(i as int), x@) == free_in_list(itemsv, x@),
        decreases items@.len() - i,
    {
        proof {
            assert(itemsv.skip(i as int)[0] == itemsv[i as int]);
            assert(itemsv.skip(i as int).drop_first() =~= itemsv.skip(i as int + 1));
        }
        if free_occurs(&items[i], x) {
            return true;
        }
        i = i + 1;
    }
    false
}

/// `expr` with every free occurrence of `from` renamed to `to`.
#[verifier::loop_isolation(false)]
fn rename_free(expr: &Expr, from: &str, to: &str) -> (r: Expr)
    ensures
        r@ == spec_rename(expr@, from@, to@),
    decreases expr,
{
    match expr {
        Expr::Var(name) => {
            if str_eq(name.as_str(), from) {
                Expr::Var(to.to_owned())
            } else {
                Expr::Var(name.clone())
            }
        },
        Expr::Lambda(params, body) => {
            if contains_str(params, from) {
                expr.clone()
            } else {
                let ps = params.clone();
                proof {
                    assert(ps.deep_view() =~= params.deep_view());
                }
                Expr::Lambda(ps, Box::new(rename_free(&**body, from, to)))
            }
        },
        Expr::Apply(func, arg) => Expr::Apply(
            Box::new(rename_free(&**func, from, to)),
            Box::new(rename_free(&**arg, from, to)),
        ),
        Expr::Define(name, rhs) => Expr::Define(
            name.clone(),
            Box::new(rename_free(&**rhs, from, to)),
        ),
        Expr::Sequence(items) => {
            let ghost itemsv = exprs_model(items@);
            proof {
                lemma_exprs_model(items@);
                assert(itemsv.skip(0) =~= itemsv);
            }
            let mut out: Vec<Expr> = Vec::new();
            let mut i: usize = 0;
            while i < items.len()
                invariant
                    i <= items@.len(),
                    spec_rename_list(itemsv, from@, to@) == exprs_model(out@)
                        + spec_rename_list(itemsv.skip(i as int), from@, to@),
                    out@.len() == i as int,
                decreases items@.len() - i,
            {
                let ghost outv0 = out@;
                let ghost out0 = exprs_model(out@);
                let e2 = rename_free(&items[i], from, to);
                out.push(e2);
                i = i + 1;
                proof {
                    lemma_exprs_model(outv0);
                    lemma_exprs_model(out@);
                    assert(exprs_model(out@) =~= out0.push(
                        spec_rename(itemsv[i - 1], from@, to@),
                    ));
                    assert(itemsv.skip(i - 1).drop_first() =~= itemsv.skip(i as int));
                    assert(out0.push(spec_rename(itemsv[i - 1], from@, to@))
                        + spec_rename_list(itemsv.skip(i as int), from@, to@) =~= out0 + (seq![
                        spec_rename(itemsv[i - 1], from@, to@)
                    ] + spec_rename_list(itemsv.skip(i as int), from@, to@)));
                }
            }
            proof {
                assert(exprs_model(out@) + spec_rename_list(
                    itemsv.skip(i as int),
                    from@,
                    to@,
                ) =~= exprs_model(out@));
            }
            Expr::Sequence(out)
        },
    }
}

/// Capture-avoiding substitution: `expr` with `value` substituted for
/// every free occurrence of `var`.
///
/// A lambda parameter that collides with `var`, or with a name free in
/// `value`, is first renamed throughout that lambda's body to a fresh
/// name `param#id` drawn from `counter`, so no free variable of `value`
/// is ever captured by a binder in `expr`.  The result and the advanced
/// counter are exactly what `spec_subst` says.  The precondition only
/// keeps the counter from outrunning its machine word: substitution
/// draws at most one fresh name per parameter occurrence.
#[verifier::loop_isolation(false)]
pub fn substitute(expr: &Expr, var: &str, value: &Expr, counter: &mut u64) -> (r: Expr)
    requires
        *old(counter) as nat + expr_size(expr@) <= u64::MAX as nat,
    ensures
        ({
            let s = spec_subst(expr@, var@, value@, *old(counter) as nat);
            r@ == s.0 && *final(counter) as nat == s.1
        }),
        *final(counter) >= *old(counter),
    decreases expr_size(expr@), 0int,
{
    match expr {
        Expr::Var(name) => {
            if str_eq(name.as_str(), var) {
                value.clone()
            } else {
                Expr::Var(name.clone())
            }
        },
        Expr::Apply(func, arg) => {
            proof {
                lemma_subst_ctr((&**func)@, var@, value@, *counter as nat);
            }
            let rf = substitute(&**func, var, value, counter);
            let ra = substitute(&**arg, var, value, counter);
            Expr::Apply(Box::new(rf), Box::new(ra))
        },
        Expr::Lambda(params, body) => {
            if contains_str(params, var) || !free_occurs(&**body, var) {
                return expr.clone();
            }
            let ghost ctr0 = *counter as nat;
            let ghost paramsv = params.deep_view();
            let ghost body0 = (&**body)@;
            let ghost target = rename_params(paramsv, body0, value@, ctr0);
            let mut new_params: Vec<String> = Vec::new();
            let mut cur_body: Expr = (**body).clone();
            proof {
                lemma_rename_params_size(paramsv, body0, value@, ctr0);
                assert(paramsv.skip(0) =~= paramsv);
            }
            let mut i: usize = 0;
            while i < params.len()
                invariant
                    i <= params@.len(),
                    new_params@.len() == i as int,
                    *counter as nat <= ctr0 + i,
                    *counter >= *old(counter),
                    rename_params(
                        paramsv.skip(i as int),
                        cur_body@,
                        value@,
                        *counter as nat,
                    ).1 == target.1,
                    rename_params(
                        paramsv.skip(i as int),
                        cur_body@,
                        value@,
                        *counter as nat,
                    ).2 == target.2,
                    target.0 == new_params.deep_view() + rename_params(
                        paramsv.skip(i as int),
                        cur_body@,
                        value@,
                        *counter as nat,
                    ).0,
                decreases params@.len() - i,
            {
                let ghost np0 = new_params.deep_view();
                proof {
                    assert(paramsv.skip(i as int)[0] == paramsv[i as int]);
                    assert(paramsv.skip(i as int).drop_first() =~= paramsv.skip(i as int + 1));
                }
                let p = &params[i];
                if free_occurs(value, p.as_str()) {
                    let fresh = fresh_var_name(p.as_str(), *counter);
                    cur_body = rename_free(&cur_body, p.as_str(), fresh.as_str());
                    *counter = *counter + 1;
                    new_params.push(fresh);
                } else {
                    new_params.push(p.clone());
                }
                i = i + 1;
                proof {
                    assert(new_params.deep_view() =~= np0.push(
                        new_params.deep_view()[i - 1],
                    ));
                    assert(np0 + (seq![new_params.deep_view()[i - 1]] + rename_params(
                        paramsv.skip(i as int),
                        cur_body@,
                        value@,
                        *counter as nat,
                    ).0) =~= new_params.deep_view() + rename_params(
                        paramsv.skip(i as int),
                        cur_body@,
                        value@,
                        *counter as nat,
                    ).0);
                }
            }
            proof {
                assert(paramsv.skip(i as int).len() == 0);
                assert(target.1 == cur_body@ && target.2 == *counter as nat);
                assert(target.0 =~= new_params.deep_view());
                lemma_subst_ctr(cur_body@, var@, value@, *counter as nat);
            }
            let new_body = substitute(&cur_body, var, value, counter);
            Expr::Lambda(new_params, Box::new(new_body))
        },
        Expr::Define(name, rhs) => {
            Expr::Define(name.clone(), Box::new(substitute(&**rhs, var, value, counter)))
        },
        Expr::Sequence(items) => {
            let ghost ctr0 = *counter as nat;
            let ghost itemsv = exprs_model(items@);
            let ghost target = spec_subst_list(itemsv, var@, value@, ctr0);
            proof {
                lemma_exprs_model(items@);
                assert(itemsv.skip(0) =~= itemsv);
            }
            let mut out: Vec<Expr> = Vec::new();
            let mut i: usize = 0;
            while i < items.len()
                invariant
                    i <= items@.len(),
                    out@.len() == i as int,
                    *counter >= *old(counter),
                    *counter as nat + exprs_size(itemsv.skip(i as int)) <= ctr0
                        + exprs_size(itemsv),
                    spec_subst_list(
                        itemsv.skip(i as int),
                        var@,
                        value@,
                        *counter as nat,
                    ).1 == target.1,
                    target.0 == exprs_model(out@) + spec_subst_list(
                        itemsv.skip(i as int),
                        var@,
                        value@,
                        *counter as nat,
                    ).0,
                decreases items@.len() - i,
            {
                let ghost outv0 = out@;
                proof {
                    assert(itemsv.skip(i as int)[0] == itemsv[i as int]);
                    assert(itemsv.skip(i as int).drop_first() =~= itemsv.skip(i as int + 1));
                    lemma_exprs_size_elem(itemsv, i as int);
                    lemma_expr_size_pos(itemsv[i as int]);
                    lemma_subst_ctr(itemsv[i as int], var@, value@, *counter as nat);
                }
                let e2 = substitute(&items[i], var, value, counter);
                out.push(e2);
                i = i + 1;
                proof {
                    lemma_exprs_model(outv0);
                    lemma_exprs_model(out@);
                    assert(exprs_model(out@) =~= exprs_model(outv0).push(
                        exprs_model(out@)[i - 1],
                    ));
                    assert(exprs_model(outv0) + (seq![exprs_model(out@)[i - 1]]
                        + spec_subst_list(
                        itemsv.skip(i as int),
                        var@,
                        value@,
                        *counter as nat,
                    ).0) =~= exprs_model(out@) + spec_subst_list(
                        itemsv.skip(i as int),
                        var@,
                        value@,
                        *counter as nat,
                    ).0);
                }
            }
            proof {
                assert(itemsv.skip(i as int).len() == 0);
                assert(target.0 =~= exprs_model(out@));
            }
            Expr::Sequence(out)
        },
    }
}

} // verus!
