use vstd::prelude::*;

use crate::ast::SpecExpr;
use crate::ast::free_in;
use crate::interpreter::SpecEnv;
use crate::interpreter::SpecEvalError;
use crate::interpreter::SpecOutcome;
use crate::interpreter::SpecValue;
use crate::interpreter::STEP_CEILING;
use crate::interpreter::env_insert;
use crate::interpreter::env_lookup;
use crate::interpreter::lemma_env_insert_found;
use crate::interpreter::lemma_env_lookup_found;
use crate::interpreter::spec_eval;
use crate::parser::ParseError;
use crate::parser::spec_is_ws;
use crate::parser::spec_parse;
use crate::parser::spec_parse_apply;
use crate::parser::spec_parse_atom;
use crate::parser::spec_parse_document;
use crate::parser::spec_parse_document_rest;
use crate::parser::spec_parse_expression;
use crate::parser::spec_parse_words;
use crate::parser::spec_parse_words_rest;
use crate::parser::spec_skip_ws;
use crate::parser::spec_word_char;
use crate::parser::spec_word_end;
use crate::parser::lemma_skip_ws_bounds;
use crate::pretty::spec_print;
use crate::pretty::spec_print_operand;
use crate::pretty::spec_print_items;
use crate::pretty::spec_print_params;
use crate::subst::spec_fresh_name;
use crate::subst::spec_subst;

verus! {

/// After binding `name`, looking `name` up finds the new value.
pub proof fn lemma_lookup_insert_same(env: SpecEnv, name: Seq<char>, v: SpecValue)
    ensures
        env_lookup(env_insert(env, name, v), name) == Some(v),
    decreases env,
{
    if env.len() > 0 && env[0].0 != name {
        lemma_lookup_insert_same(env.drop_first(), name, v);
        assert((seq![env[0]] + env_insert(env.drop_first(), name, v)).drop_first()
            =~= env_insert(env.drop_first(), name, v));
    } else if env.len() > 0 {
        assert((seq![(name, v)] + env.drop_first())[0] == (name, v));
    }
}

/// Binding `name` leaves every other name's binding alone.
pub proof fn lemma_lookup_insert_other(env: SpecEnv, name: Seq<char>, v: SpecValue, m: Seq<char>)
    requires
        m != name,
    ensures
        env_lookup(env_insert(env, name, v), m) == env_lookup(env, m),
    decreases env,
{
    if env.len() == 0 {
        assert(env_insert(env, name, v)[0] == (name, v));
        assert(env_insert(env, name, v).drop_first() =~= env);
    } else if env[0].0 == name {
        assert(env_insert(env, name, v)[0] == (name, v));
        assert(env_insert(env, name, v).drop_first() =~= env.drop_first());
    } else {
        lemma_lookup_insert_other(env.drop_first(), name, v, m);
        assert(env_insert(env, name, v)[0] == env[0]);
        assert(env_insert(env, name, v).drop_first() =~= env_insert(
            env.drop_first(),
            name,
            v,
        ));
    }
}

/// Identity application: `(L x . x) y`, under any environment that binds
/// `y` to some value, returns exactly that value — for a closure, the very
/// closure `y` is bound to, captured environment included — and leaves
/// the environment as it was, at the cost of one reduction.
pub proof fn lemma_identity_application(
    x: Seq<char>,
    y: Seq<char>,
    env: SpecEnv,
    steps: nat,
    v: SpecValue,
)
    requires
        env_lookup(env, y) == Some(v),
        steps < STEP_CEILING as nat,
    ensures
        ({
            let e = SpecExpr::Apply(
                Box::new(SpecExpr::Lambda(seq![x], Box::new(SpecExpr::Var(x)))),
                Box::new(SpecExpr::Var(y)),
            );
            spec_eval(e, env, steps) == (SpecOutcome {
                result: Ok::<SpecValue, SpecEvalError>(v),
                env,
                steps: steps + 1,
            })
        }),
{
    reveal_with_fuel(spec_eval, 3);
    let benv = env_insert(env, x, v);
    lemma_lookup_insert_same(env, x, v);
    assert(seq![x].drop_first().len() == 0);
}

/// Currying: `(L x y . x) a` evaluates to a partially-applied closure
/// whose remaining parameter is `y`; applying that to `b` yields exactly
/// the value bound to `a`.  The environment comes back unchanged.
#[verifier::rlimit(100)]
pub proof fn lemma_currying(
    x: Seq<char>,
    y: Seq<char>,
    a: Seq<char>,
    b: Seq<char>,
    env: SpecEnv,
    steps: nat,
    va: SpecValue,
    vb: SpecValue,
)
    requires
        x != y,
        env_lookup(env, a) == Some(va),
        env_lookup(env, b) == Some(vb),
        steps + 2 <= STEP_CEILING as nat,
    ensures
        ({
            let f = SpecExpr::Lambda(seq![x, y], Box::new(SpecExpr::Var(x)));
            let inner = SpecExpr::Apply(Box::new(f), Box::new(SpecExpr::Var(a)));
            spec_eval(inner, env, steps) == (SpecOutcome {
                result: Ok::<SpecValue, SpecEvalError>(
                    SpecValue::Closure(
                        seq![y],
                        SpecExpr::Var(x),
                        env_insert(env, x, va),
                    ),
                ),
                env,
                steps: steps + 1,
            })
        }),
        ({
            let f = SpecExpr::Lambda(seq![x, y], Box::new(SpecExpr::Var(x)));
            let inner = SpecExpr::Apply(Box::new(f), Box::new(SpecExpr::Var(a)));
            let outer = SpecExpr::Apply(Box::new(inner), Box::new(SpecExpr::Var(b)));
            spec_eval(outer, env, steps) == (SpecOutcome {
                result: Ok::<SpecValue, SpecEvalError>(va),
                env,
                steps: steps + 2,
            })
        }),
{
    reveal_with_fuel(spec_eval, 5);
    let benv = env_insert(env, x, va);
    assert(seq![x, y].drop_first() =~= seq![y]);
    lemma_lookup_insert_same(env, x, va);
    lemma_lookup_insert_other(benv, y, vb, x);
    lemma_lookup_insert_same(benv, y, vb);
    assert(seq![y].drop_first().len() == 0);
    let f = SpecExpr::Lambda(seq![x, y], Box::new(SpecExpr::Var(x)));
    let inner = SpecExpr::Apply(Box::new(f), Box::new(SpecExpr::Var(a)));
    let c = SpecValue::Closure(seq![y], SpecExpr::Var(x), benv);
    assert(spec_eval(inner, env, steps + 1) == (SpecOutcome {
        result: Ok::<SpecValue, SpecEvalError>(c),
        env,
        steps: steps + 2,
    }));
}

/// Applying `x x` under an environment whose `x` is the self-application
/// closure only ever rebuilds the same application: each round costs one
/// reduction, so the guard trips once the ceiling is reached.
proof fn lemma_self_application_spins(x: Seq<char>, cenv: SpecEnv, steps: nat)
    ensures
        ({
            let body = SpecExpr::Apply(Box::new(SpecExpr::Var(x)), Box::new(SpecExpr::Var(x)));
            let c = SpecValue::Closure(seq![x], body, cenv);
            spec_eval(body, env_insert(cenv, x, c), steps).result == Err::<
                SpecValue,
                SpecEvalError,
            >(SpecEvalError::DivergenceDetected)
        }),
    decreases crate::interpreter::fuel_left(steps),
{
    reveal_with_fuel(spec_eval, 3);
    let body = SpecExpr::Apply(Box::new(SpecExpr::Var(x)), Box::new(SpecExpr::Var(x)));
    let c = SpecValue::Closure(seq![x], body, cenv);
    let benv = env_insert(cenv, x, c);
    if steps + 1 <= STEP_CEILING as nat {
        lemma_lookup_insert_same(cenv, x, c);
        assert(seq![x].drop_first().len() == 0);
        lemma_self_application_spins(x, cenv, steps + 1);
    }
}

/// Divergence detection: applying the self-application combinator
/// `(L x . x x) (L x . x x)` — for any parameter name, any environment,
/// and any point within the step budget — ends in `DivergenceDetected`.
/// That it ends at all, and within bounded work, is the termination
/// argument Verus checks for `eval` itself.
pub proof fn lemma_divergence_self_application(x: Seq<char>, env: SpecEnv, steps: nat)
    ensures
        ({
            let body = SpecExpr::Apply(Box::new(SpecExpr::Var(x)), Box::new(SpecExpr::Var(x)));
            let omega = SpecExpr::Lambda(seq![x], Box::new(body));
            let e = SpecExpr::Apply(Box::new(omega), Box::new(omega));
            spec_eval(e, env, steps).result == Err::<SpecValue, SpecEvalError>(
                SpecEvalError::DivergenceDetected,
            )
        }),
{
    reveal_with_fuel(spec_eval, 3);
    let body = SpecExpr::Apply(Box::new(SpecExpr::Var(x)), Box::new(SpecExpr::Var(x)));
    let omega = SpecExpr::Lambda(seq![x], Box::new(body));
    if steps + 1 <= STEP_CEILING as nat {
        let c = SpecValue::Closure(seq![x], body, env);
        assert(seq![x].drop_first().len() == 0);
        lemma_self_application_spins(x, env, steps + 1);
    }
}

/// Capture avoidance: substituting a replacement whose `z` is free into
/// `L z . (x z)` at `x` renames the bound `z` to a fresh `z#id`, so the
/// replacement lands under a binder that no longer captures it — `z`
/// stays free in the result.  `x` and `z` are source words, so neither
/// contains the `#` that every generated name carries.
#[verifier::rlimit(100)]
pub proof fn lemma_capture_avoidance(x: Seq<char>, z: Seq<char>, repl: SpecExpr, ctr: nat)
    requires
        x != z,
        free_in(repl, z),
        !x.contains('#'),
        !z.contains('#'),
    ensures
        ({
            let e = SpecExpr::Lambda(
                seq![z],
                Box::new(
                    SpecExpr::Apply(Box::new(SpecExpr::Var(x)), Box::new(SpecExpr::Var(z))),
                ),
            );
            let zf = spec_fresh_name(z, ctr);
            let s = spec_subst(e, x, repl, ctr);
            &&& s.0 == SpecExpr::Lambda(
                seq![zf],
                Box::new(SpecExpr::Apply(Box::new(repl), Box::new(SpecExpr::Var(zf)))),
            )
            &&& s.1 == ctr + 1
            &&& zf != z
            &&& free_in(s.0, z)
        }),
{
    reveal_with_fuel(crate::subst::spec_rename, 3);
    reveal_with_fuel(crate::subst::rename_params, 3);
    reveal_with_fuel(spec_subst, 3);
    let e = SpecExpr::Lambda(
        seq![z],
        Box::new(SpecExpr::Apply(Box::new(SpecExpr::Var(x)), Box::new(SpecExpr::Var(z)))),
    );
    let ebody = SpecExpr::Apply(Box::new(SpecExpr::Var(x)), Box::new(SpecExpr::Var(z)));
    let zf = spec_fresh_name(z, ctr);
    assert(zf.len() > z.len() && zf[z.len() as int] == '#') by {
        crate::subst::lemma_fresh_name_shape(z, ctr);
    };
    assert(zf != z);
    assert(x != zf) by {
        if x == zf {
            assert(x[z.len() as int] == '#');
            assert(x.contains('#'));
        }
    };
    // the substitution descends: x is free in the body and not shadowed
    assert(!seq![z].contains(x)) by {
        assert(forall|i: int| 0 <= i < 1 ==> seq![z][i] == z);
    };
    assert(free_in(ebody, x)) by {
        reveal_with_fuel(free_in, 3);
    };
    let r = crate::subst::rename_params(seq![z], ebody, repl, ctr);
    assert(seq![z][0] == z && seq![z].drop_first().len() == 0);
    let body2 = crate::subst::spec_rename(ebody, z, zf);
    assert(body2 == SpecExpr::Apply(Box::new(SpecExpr::Var(x)), Box::new(SpecExpr::Var(zf))));
    assert(r.0 =~= seq![zf] && r.1 == body2 && r.2 == ctr + 1);
    let s = spec_subst(e, x, repl, ctr);
    assert(s.0 == SpecExpr::Lambda(
        seq![zf],
        Box::new(SpecExpr::Apply(Box::new(repl), Box::new(SpecExpr::Var(zf)))),
    ) && s.1 == ctr + 1);
    assert(!seq![zf].contains(z)) by {
        assert(forall|i: int| 0 <= i < 1 ==> seq![zf][i] == zf);
    };
    reveal_with_fuel(free_in, 3);
    assert(free_in(SpecExpr::Apply(Box::new(repl), Box::new(SpecExpr::Var(zf))), z));
    assert(free_in(s.0, z));
}

/// An expression that binds nothing at the level the current environment
/// sees: no `Define` and no `Sequence` stands in it outside a lambda
/// body, so evaluating it leaves the environment untouched.
pub open spec fn no_binds(e: SpecExpr) -> bool
    decreases e,
{
    match e {
        SpecExpr::Var(_name) => true,
        SpecExpr::Lambda(_params, _body) => true,
        SpecExpr::Apply(func, arg) => no_binds(*func) && no_binds(*arg),
        SpecExpr::Define(_name, _rhs) => false,
        SpecExpr::Sequence(_items) => false,
    }
}

/// Evaluating a bind-free expression gives the environment back exactly:
/// an application's function and argument are themselves bind-free, and
/// a full application evaluates the body under the closure's own
/// extended environment, never the caller's.
pub proof fn lemma_no_binds_preserves_env(e: SpecExpr, env: SpecEnv, steps: nat)
    requires
        no_binds(e),
    ensures
        spec_eval(e, env, steps).env == env,
    decreases crate::interpreter::fuel_left(steps), e, 0int,
{
    match e {
        SpecExpr::Apply(func, arg) => {
            let s1 = steps + 1;
            if s1 <= STEP_CEILING as nat {
                lemma_no_binds_preserves_env(*func, env, s1);
                let rf = spec_eval(*func, env, s1);
                if rf.result is Ok {
                    let s2 = crate::interpreter::nat_max(s1, rf.steps);
                    lemma_no_binds_preserves_env(*arg, rf.env, s2);
                }
            }
        },
        _ => {},
    }
}

/// The position of the first binding for `name`.
pub open spec fn env_first_index(env: SpecEnv, name: Seq<char>) -> int
    decreases env,
{
    if env.len() == 0 {
        0
    } else if env[0].0 == name {
        0
    } else {
        1 + env_first_index(env.drop_first(), name)
    }
}

/// When lookup succeeds, the first index is in range, carries the name
/// and the looked-up value, and nothing before it carries the name.
pub proof fn lemma_env_first_index(env: SpecEnv, name: Seq<char>)
    requires
        env_lookup(env, name) is Some,
    ensures
        0 <= env_first_index(env, name) < env.len(),
        env[env_first_index(env, name)].0 == name,
        env[env_first_index(env, name)].1 == env_lookup(env, name)->Some_0,
        forall|j: int| 0 <= j < env_first_index(env, name) ==> env[j].0 != name,
    decreases env,
{
    if env.len() > 0 && env[0].0 != name {
        lemma_env_first_index(env.drop_first(), name);
        assert forall|j: int| 0 <= j < env_first_index(env, name) implies env[j].0 != name by {
            if j > 0 {
                assert(env.drop_first()[j - 1] == env[j]);
            }
        }
    }
}

/// Scoped define restoration: a sequence `x = e1; x = e2; x`, evaluated
/// where the surrounding scope already binds `x`, yields the second
/// definition's value — computed where the first is in force — while the
/// surrounding environment, its `x` included, comes back exactly as it
/// was.  The right-hand sides may be any bind-free expressions whose
/// evaluations succeed.
#[verifier::rlimit(100)]
pub proof fn lemma_scoped_define_restoration(
    x: Seq<char>,
    e1: SpecExpr,
    e2: SpecExpr,
    env: SpecEnv,
    steps: nat,
    v0: SpecValue,
)
    requires
        env_lookup(env, x) == Some(v0),
        no_binds(e1),
        no_binds(e2),
        spec_eval(e1, env, steps).result is Ok,
        ({
            let r1 = spec_eval(e1, env, steps);
            spec_eval(e2, env_insert(env, x, r1.result->Ok_0), r1.steps).result is Ok
        }),
    ensures
        ({
            let items = seq![
                SpecExpr::Define(x, Box::new(e1)),
                SpecExpr::Define(x, Box::new(e2)),
                SpecExpr::Var(x),
            ];
            let r1 = spec_eval(e1, env, steps);
            let env1 = env_insert(env, x, r1.result->Ok_0);
            let r2 = spec_eval(e2, env1, r1.steps);
            spec_eval(SpecExpr::Sequence(items), env, steps) == (SpecOutcome {
                result: Ok::<SpecValue, SpecEvalError>(r2.result->Ok_0),
                env,
                steps: r2.steps,
            })
        }),
{
    reveal_with_fuel(crate::interpreter::spec_eval_seq, 5);
    reveal_with_fuel(spec_eval, 2);
    reveal_with_fuel(env_lookup, 3);
    let items = seq![
        SpecExpr::Define(x, Box::new(e1)),
        SpecExpr::Define(x, Box::new(e2)),
        SpecExpr::Var(x),
    ];
    let r1 = spec_eval(e1, env, steps);
    let v1 = r1.result->Ok_0;
    let env1 = env_insert(env, x, v1);
    let r2 = spec_eval(e2, env1, r1.steps);
    let v2 = r2.result->Ok_0;
    let env2 = env_insert(env1, x, v2);

    // the right-hand sides leave the environment alone and only move the
    // reduction count forward
    lemma_no_binds_preserves_env(e1, env, steps);
    crate::interpreter::lemma_spec_eval_steps(e1, env, steps);
    lemma_no_binds_preserves_env(e2, env1, r1.steps);
    crate::interpreter::lemma_spec_eval_steps(e2, env1, r1.steps);

    let i = env_first_index(env, x);
    lemma_env_first_index(env, x);
    lemma_env_insert_found(env, x, v1, i);
    assert(env1 == env.update(i, (x, v1)));
    lemma_env_insert_found(env1, x, v2, i);
    assert(env2 == env1.update(i, (x, v2)));
    assert(env2 =~= env.update(i, (x, v2)));

    // the walk: the first define saves the prior value of `x`, the second
    // sees `x` already tracked, the final `Var` reads the second value
    let saved1 = Seq::<(Seq<char>, SpecValue)>::empty().push((x, v0));
    assert(env_lookup(saved1, x) == Some(v0)) by {
        assert(saved1[0] == (x, v0));
    };
    lemma_env_lookup_found(env2, x, i);
    assert(env_lookup(env2, x) == Some(v2));

    // restoration rebinds `x` to what it was, giving back `env` itself
    lemma_env_insert_found(env2, x, v0, i);
    assert(env_insert(env2, x, v0) =~= env.update(i, (x, v0)));
    assert(env[i] == (x, v0));
    assert(env.update(i, (x, v0)) =~= env);

    assert(!Seq::<Seq<char>>::empty().contains(x));
    assert(crate::interpreter::remove_all(env2, Seq::empty()) == env2);
    assert(crate::interpreter::reinstate_all(env2, saved1) == env_insert(env2, x, v0)) by {
        assert(saved1.drop_first().len() == 0);
        assert(crate::interpreter::reinstate_all(env_insert(env2, x, v0), saved1.drop_first())
            == env_insert(env2, x, v0));
    };
    assert(items[0] == SpecExpr::Define(x, Box::new(e1)));
    assert(items[1] == SpecExpr::Define(x, Box::new(e2)));
    assert(items[2] == SpecExpr::Var(x));

    let fresh0 = Seq::<Seq<char>>::empty();
    let saved0 = Seq::<(Seq<char>, SpecValue)>::empty();
    let target = SpecOutcome {
        result: Ok::<SpecValue, SpecEvalError>(v2),
        env,
        steps: r2.steps,
    };
    assert(crate::interpreter::spec_eval_seq(items, 3, env2, r2.steps, v2, fresh0, saved1)
        == target);
    assert(spec_eval(items[2], env2, r2.steps) == (SpecOutcome {
        result: Ok::<SpecValue, SpecEvalError>(v2),
        env: env2,
        steps: r2.steps,
    }));
    assert(crate::interpreter::spec_eval_seq(
        items,
        2,
        env2,
        r2.steps,
        SpecValue::Unit,
        fresh0,
        saved1,
    ) == target);
    assert(crate::interpreter::spec_eval_seq(
        items,
        1,
        env1,
        r1.steps,
        SpecValue::Unit,
        fresh0,
        saved1,
    ) == target);
    assert(env_lookup(saved0, x) is None);
    assert(saved0.push((x, v0)) =~= saved1);
    assert(crate::interpreter::spec_eval_seq(
        items,
        0,
        env,
        steps,
        SpecValue::Unit,
        fresh0,
        saved0,
    ) == target);
}

/// A name as the grammar writes one: nonempty, word characters only.
pub open spec fn word_ok(name: Seq<char>) -> bool {
    name.len() > 0 && (forall|i: int| 0 <= i < name.len() ==> spec_word_char(name[i]))
}

/// An expression whose printed text parses back to itself.  Variable and
/// definition names are grammar words not starting with the lambda
/// keyword's letter, and a printed sequence needs two items, or its
/// parentheses collapse on re-parsing.  Every expression a parsed
/// program can hold satisfies this.
pub open spec fn printable(e: SpecExpr) -> bool
    decreases e,
{
    match e {
        SpecExpr::Var(name) => word_ok(name) && name[0] != 'L',
        SpecExpr::Lambda(params, body) => params.len() >= 1 && (forall|i: int|
            0 <= i < params.len() ==> word_ok(#[trigger] params[i])) && printable(*body),
        SpecExpr::Apply(func, arg) => printable(*func) && printable(*arg),
        SpecExpr::Define(name, rhs) => word_ok(name) && name[0] != 'L' && printable(*rhs),
        SpecExpr::Sequence(items) => items.len() >= 2 && printable_list(items),
    }
}

/// Every element is printable.
pub open spec fn printable_list(items: Seq<SpecExpr>) -> bool
    decreases items,
{
    if items.len() == 0 {
        true
    } else {
        printable(items[0]) && printable_list(items.drop_first())
    }
}

/// The text `t` stands in `s` at position `p`.
pub open spec fn text_at(s: Seq<char>, p: int, t: Seq<char>) -> bool {
    0 <= p && p + t.len() <= s.len() && s.subrange(p, p + t.len()) == t
}

/// A text standing somewhere splits into its two halves.
proof fn lemma_text_split(s: Seq<char>, p: int, a: Seq<char>, b: Seq<char>)
    requires
        text_at(s, p, a + b),
    ensures
        text_at(s, p, a),
        text_at(s, p + a.len(), b),
{
    assert forall|k: int| 0 <= k < a.len() implies s[p + k] == a[k] by {
        assert((a + b)[k] == s.subrange(p, p + (a + b).len())[k]);
    }
    assert forall|k: int| 0 <= k < b.len() implies s[p + a.len() + k] == b[k] by {
        assert((a + b)[a.len() + k] == s.subrange(p, p + (a + b).len())[a.len() + k]);
    }
    assert(s.subrange(p, p + a.len()) =~= a);
    assert(s.subrange(p + a.len(), p + a.len() + b.len()) =~= b);
}

/// The characters of a text standing somewhere.
proof fn lemma_text_chars(s: Seq<char>, p: int, t: Seq<char>)
    requires
        text_at(s, p, t),
    ensures
        forall|k: int| 0 <= k < t.len() ==> s[p + k] == t[k],
{
    assert forall|k: int| 0 <= k < t.len() implies s[p + k] == t[k] by {
        assert(t[k] == s.subrange(p, p + t.len())[k]);
    }
}

/// A printed expression is nonempty and opens with a word character, the
/// lambda keyword, or a parenthesis — never whitespace, `=`, `)` or `;`.
proof fn lemma_print_head(e: SpecExpr)
    requires
        printable(e),
    ensures
        spec_print(e).len() >= 1,
        spec_word_char(spec_print(e)[0]) || spec_print(e)[0] == 'L' || spec_print(e)[0] == '(',
{
    match e {
        SpecExpr::Var(name) => {
            assert(spec_print(e)[0] == name[0]);
        },
        SpecExpr::Lambda(params, body) => {
            assert(spec_print(e)[0] == (seq!['L', ' '])[0]);
        },
        SpecExpr::Apply(func, arg) => {
            assert(spec_print(e)[0] == (seq!['('])[0]);
        },
        SpecExpr::Define(name, rhs) => {
            assert(spec_print(e)[0] == name[0]);
        },
        SpecExpr::Sequence(items) => {
            assert(spec_print(e)[0] == (seq!['('])[0]);
        },
    }
}

/// A printed application operand is nonempty and opens with a word
/// character or a parenthesis — exactly what continues an application.
proof fn lemma_print_operand_head(e: SpecExpr)
    requires
        printable(e),
    ensures
        spec_print_operand(e).len() >= 1,
        spec_word_char(spec_print_operand(e)[0]) || spec_print_operand(e)[0] == '(',
{
    lemma_print_head(e);
    match e {
        SpecExpr::Lambda(_params, _body) => {
            assert(spec_print_operand(e)[0] == (seq!['('] + spec_print(e))[0]);
        },
        SpecExpr::Define(_name, _rhs) => {
            assert(spec_print_operand(e)[0] == (seq!['('] + spec_print(e))[0]);
        },
        _ => {
            assert(spec_print_operand(e) == spec_print(e));
        },
    }
}

/// A word character is not whitespace and none of the grammar's marks.
proof fn lemma_word_char_facts(c: char)
    requires
        spec_word_char(c),
    ensures
        !spec_is_ws(c),
        c != '(' && c != ')' && c != ';' && c != '=' && c != '.',
{
}

/// Skipping whitespace from a non-whitespace position stays put.
proof fn lemma_skip_ws_fix(s: Seq<char>, p: int)
    requires
        0 <= p,
        p >= s.len() || !spec_is_ws(s[p]),
    ensures
        spec_skip_ws(s, p) == p,
{
}

/// A word standing at `p` with no word character after it scans to
/// exactly its own end.
proof fn lemma_scan_word(s: Seq<char>, p: int, name: Seq<char>)
    requires
        word_ok(name),
        text_at(s, p, name),
        p + name.len() == s.len() || !spec_word_char(s[p + name.len()]),
    ensures
        spec_word_end(s, p) == p + name.len(),
    decreases name.len(),
{
    lemma_text_chars(s, p, name);
    assert(s[p] == name[0]) by {
        assert(s.subrange(p, p + name.len())[0] == s[p + 0]);
    };
    if name.len() == 1 {
        assert(spec_word_char(s[p]));
        assert(spec_word_end(s, p) == spec_word_end(s, p + 1));
    } else {
        assert(text_at(s, p + 1, name.drop_first())) by {
            assert(s.subrange(p + 1, p + name.len()) =~= name.drop_first());
        };
        assert(word_ok(name.drop_first())) by {
            assert(forall|i: int|
                0 <= i < name.drop_first().len() ==> name.drop_first()[i] == name[i + 1]);
        };
        lemma_scan_word(s, p + 1, name.drop_first());
        assert(spec_word_char(s[p]));
        assert(spec_word_end(s, p) == spec_word_end(s, p + 1));
    }
}

/// Every element of a printable list is printable.
proof fn lemma_printable_list_elem(items: Seq<SpecExpr>, i: int)
    requires
        printable_list(items),
        0 <= i < items.len(),
    ensures
        printable(items[i]),
    decreases i,
{
    if i > 0 {
        lemma_printable_list_elem(items.drop_first(), i - 1);
    }
}

/// A printed parameter list, followed by the `.` that closes a lambda's
/// head, scans to exactly those parameters.
proof fn lemma_scan_params(s: Seq<char>, pos: int, params: Seq<Seq<char>>, acc: Seq<Seq<char>>)
    requires
        params.len() >= 1,
        forall|i: int| 0 <= i < params.len() ==> word_ok(#[trigger] params[i]),
        text_at(s, pos, spec_print_params(params)),
        pos + spec_print_params(params).len() < s.len(),
        s[pos + spec_print_params(params).len()] == '.',
    ensures
        spec_parse_words_rest(s, pos, acc) == (
            acc + params,
            pos + spec_print_params(params).len(),
        ),
    decreases params.len(),
{
    let pp = spec_print_params(params);
    let w0 = params[0];
    lemma_text_chars(s, pos, pp);
    if params.len() == 1 {
        assert(pp == w0);
        lemma_word_char_facts(w0[0]);
        assert(s[pos] == w0[0]) by {
            assert(s[pos + 0] == pp[0]);
        };
        lemma_skip_ws_fix(s, pos);
        let e = pos + w0.len();
        assert(s[e] == '.');
        lemma_scan_word(s, pos, w0);
        lemma_skip_ws_fix(s, e);
        assert(spec_parse_words_rest(s, e, acc.push(w0)) == (acc.push(w0), e));
        assert(acc.push(w0) =~= acc + params);
    } else {
        assert(pp == w0 + seq![' '] + spec_print_params(params.drop_first()));
        lemma_text_split(s, pos, w0 + seq![' '], spec_print_params(params.drop_first()));
        lemma_text_split(s, pos, w0, seq![' ']);
        lemma_text_chars(s, pos, w0);
        lemma_text_chars(s, pos + w0.len(), seq![' ']);
        assert(s[pos + w0.len()] == ' ') by {
            assert(s[pos + w0.len() + 0] == (seq![' '])[0]);
        };
        lemma_word_char_facts(w0[0]);
        assert(s[pos] == w0[0]) by {
            assert(s[pos + 0] == w0[0]);
        };
        lemma_skip_ws_fix(s, pos);
        lemma_scan_word(s, pos, w0);
        let e = pos + w0.len();
        let rest = params.drop_first();
        let prest = spec_print_params(rest);
        assert(forall|i: int| 0 <= i < rest.len() ==> word_ok(#[trigger] rest[i])) by {
            assert(forall|i: int| 0 <= i < rest.len() ==> rest[i] == params[i + 1]);
        };
        lemma_scan_params(s, e + 1, rest, acc.push(w0));
        // after the word comes one space, then the next word
        lemma_print_params_head(rest);
        lemma_text_chars(s, e + 1, prest);
        assert(s[e + 1] == prest[0]) by {
            assert(s[e + 1 + 0] == prest[0]);
        };
        lemma_word_char_facts(prest[0]);
        lemma_skip_ws_fix(s, e + 1);
        assert(spec_skip_ws(s, e) == e + 1);
        // the walk from the space equals the walk from the next word
        assert(spec_parse_words_rest(s, e, acc.push(w0)) == spec_parse_words_rest(
            s,
            e + 1,
            acc.push(w0),
        ));
        assert(acc.push(w0) + rest =~= acc + params);
    }
}

/// A printed nonempty parameter list opens with a word character.
proof fn lemma_print_params_head(params: Seq<Seq<char>>)
    requires
        params.len() >= 1,
        forall|i: int| 0 <= i < params.len() ==> word_ok(#[trigger] params[i]),
    ensures
        spec_print_params(params).len() >= 1,
        spec_print_params(params)[0] == params[0][0],
        spec_word_char(spec_print_params(params)[0]),
{
    if params.len() > 1 {
        assert(spec_print_params(params)[0] == (params[0] + seq![' '])[0]);
    }
}

/// Parsing an expression's printed text — from any position whose
/// whitespace run ends where the text begins, with one of the grammar's
/// stops right after it — yields that very expression and ends right
/// after the text.
#[verifier::rlimit(100)]
proof fn lemma_parse_print(e: SpecExpr, s: Seq<char>, pos: int)
    requires
        printable(e),
        0 <= pos <= s.len(),
        text_at(s, spec_skip_ws(s, pos), spec_print(e)),
        ({
            let j = spec_skip_ws(s, pos) + spec_print(e).len();
            j == s.len() || s[j] == ')' || s[j] == ';'
        }),
    ensures
        spec_parse_expression(s, pos) == (
            Ok::<SpecExpr, ParseError>(e),
            spec_skip_ws(s, pos) + spec_print(e).len(),
        ),
    decreases e, 2int, 0int,
{
    reveal_with_fuel(printable, 2);
    reveal_with_fuel(spec_parse_expression, 2);
    reveal_with_fuel(spec_parse_apply, 2);
    reveal_with_fuel(spec_parse_document, 2);
    reveal_with_fuel(spec_parse_document_rest, 2);
    let p = spec_skip_ws(s, pos);
    let t = spec_print(e);
    let j = p + t.len();
    lemma_skip_ws_bounds(s, pos);
    lemma_print_head(e);
    lemma_text_chars(s, p, t);
    assert(s[p] == t[0]) by {
        assert(s[p + 0] == t[0]);
    };
    match e {
        SpecExpr::Var(name) => {
            lemma_word_char_facts(s[p]);
            lemma_scan_word(s, p, name);
            let en = p + name.len();
            assert(s.subrange(p, en) =~= name);
            lemma_skip_ws_fix(s, en);
            assert(spec_skip_ws(s, en) == en);
        },
        SpecExpr::Lambda(params, body) => {
            let pp = spec_print_params(params);
            let pb = spec_print(*body);
            assert(t == seq!['L', ' '] + pp + seq!['.', ' '] + pb);
            lemma_text_split(s, p, seq!['L', ' '] + pp + seq!['.', ' '], pb);
            lemma_text_split(s, p, seq!['L', ' '] + pp, seq!['.', ' ']);
            lemma_text_split(s, p, seq!['L', ' '], pp);
            lemma_text_chars(s, p, seq!['L', ' ']);
            assert(s[p] == 'L' && s[p + 1] == ' ') by {
                assert(s[p + 0] == (seq!['L', ' '])[0]);
                assert(s[p + 1] == (seq!['L', ' '])[1]);
            };
            let dot = p + 2 + pp.len();
            lemma_text_chars(s, dot, seq!['.', ' ']);
            assert(s[dot] == '.' && s[dot + 1] == ' ') by {
                assert(s[dot + 0] == (seq!['.', ' '])[0]);
                assert(s[dot + 1] == (seq!['.', ' '])[1]);
            };
            lemma_print_params_head(params);
            assert(s[p + 2] == pp[0]) by {
                assert(s[p + 2 + 0] == pp[0]);
            };
            lemma_word_char_facts(pp[0]);
            lemma_skip_ws_fix(s, p + 2);
            assert(spec_skip_ws(s, p + 1) == p + 2);
            lemma_scan_params(s, p + 2, params, Seq::empty());
            assert(Seq::<Seq<char>>::empty() + params =~= params);
            assert(spec_parse_words(s, p + 2) == (
                Ok::<Seq<Seq<char>>, ParseError>(params),
                dot,
            ));
            lemma_skip_ws_fix(s, dot);
            // the body follows the dot and one space
            lemma_print_head(*body);
            lemma_text_chars(s, dot + 2, pb);
            assert(s[dot + 2] == pb[0]) by {
                assert(s[dot + 2 + 0] == pb[0]);
            };
            assert(!spec_is_ws(pb[0]));
            lemma_skip_ws_fix(s, dot + 2);
            assert(spec_skip_ws(s, dot + 1) == dot + 2);
            lemma_parse_print(*body, s, dot + 1);
            assert(j == dot + 2 + pb.len());
        },
        SpecExpr::Apply(func, arg) => {
            let pf = spec_print_operand(*func);
            let pa = spec_print_operand(*arg);
            assert(t == seq!['('] + (pf + seq![' '] + pa) + seq![')']) by {
                assert(seq!['('] + pf + seq![' '] + pa + seq![')'] =~= seq!['('] + (pf
                    + seq![' '] + pa) + seq![')']);
            };
            lemma_text_split(s, p, seq!['('] + (pf + seq![' '] + pa), seq![')']);
            lemma_text_split(s, p, seq!['('], pf + seq![' '] + pa);
            lemma_text_chars(s, p + 1 + (pf + seq![' '] + pa).len(), seq![')']);
            assert(s[j - 1] == ')') by {
                assert(s[p + 1 + (pf + seq![' '] + pa).len() + 0] == (seq![')'])[0]);
            };
            lemma_parse_inner(e, s, p + 1);
            let end1 = p + 1 + pf.len() + 1 + pa.len();
            assert(end1 == j - 1);
            lemma_print_operand_head(*func);
            lemma_text_chars(s, p + 1, pf + seq![' '] + pa);
            assert(s[p + 1] == pf[0]) by {
                assert(s[p + 1 + 0] == (pf + seq![' '] + pa)[0]);
            };
            if spec_word_char(s[p + 1]) {
                lemma_word_char_facts(s[p + 1]);
            }
            assert(!spec_is_ws(s[p + 1]));
            lemma_skip_ws_fix(s, p + 1);
            lemma_skip_ws_fix(s, end1);
            assert(spec_parse_document_rest(s, p + 1, Seq::empty()) == (
                Ok::<Seq<SpecExpr>, ParseError>(seq![e]),
                end1,
            )) by {
                assert(Seq::<SpecExpr>::empty().push(e) =~= seq![e]);
            };
            assert(seq![e].len() == 1 && seq![e][0] == e);
            // after the closing parenthesis the chain stops at the terminator
            lemma_skip_ws_fix(s, j);
        },
        SpecExpr::Define(name, rhs) => {
            let pr = spec_print(*rhs);
            assert(t == name + seq![' ', '=', ' '] + pr);
            lemma_text_split(s, p, name + seq![' ', '=', ' '], pr);
            lemma_text_split(s, p, name, seq![' ', '=', ' ']);
            lemma_text_chars(s, p + name.len(), seq![' ', '=', ' ']);
            assert(s[p + name.len()] == ' ' && s[p + name.len() + 1] == '=' && s[p + name.len()
                + 2] == ' ') by {
                assert(s[p + name.len() + 0] == (seq![' ', '=', ' '])[0]);
                assert(s[p + name.len() + 1] == (seq![' ', '=', ' '])[1]);
                assert(s[p + name.len() + 2] == (seq![' ', '=', ' '])[2]);
            };
            lemma_word_char_facts(s[p]);
            lemma_scan_word(s, p, name);
            let en = p + name.len();
            assert(s.subrange(p, en) =~= name);
            lemma_skip_ws_fix(s, en + 1);
            assert(spec_skip_ws(s, en) == en + 1);
            // the right-hand side follows `= `
            lemma_print_head(*rhs);
            lemma_text_chars(s, en + 3, pr);
            assert(s[en + 3] == pr[0]) by {
                assert(s[en + 3 + 0] == pr[0]);
            };
            assert(!spec_is_ws(pr[0]));
            lemma_skip_ws_fix(s, en + 3);
            assert(spec_skip_ws(s, en + 2) == en + 3);
            lemma_parse_print(*rhs, s, en + 2);
            assert(j == en + 3 + pr.len());
        },
        SpecExpr::Sequence(items) => {
            let pi = spec_print_items(items, 0);
            assert(t == seq!['('] + pi + seq![')']);
            lemma_text_split(s, p, seq!['('] + pi, seq![')']);
            lemma_text_split(s, p, seq!['('], pi);
            lemma_text_chars(s, p + 1 + pi.len(), seq![')']);
            assert(s[j - 1] == ')') by {
                assert(s[p + 1 + pi.len() + 0] == (seq![')'])[0]);
            };
            lemma_print_items_head(items, 0);
            lemma_text_chars(s, p + 1, pi);
            assert(s[p + 1] == pi[0]) by {
                assert(s[p + 1 + 0] == pi[0]);
            };
            lemma_skip_ws_fix(s, p + 1);
            lemma_parse_print_items(items, 0, s, p + 1, Seq::empty());
            assert(Seq::<SpecExpr>::empty() + items.skip(0) =~= items);
            lemma_skip_ws_fix(s, j - 1);
            assert(items.len() != 1);
            // after the closing parenthesis the chain stops at the terminator
            lemma_skip_ws_fix(s, j);
        },
    }
}

/// Parsing the unparenthesized inside of a printed application —
/// `func arg` as operand atoms, with `)` right after — yields the
/// application, the chain associating to the left.
#[verifier::rlimit(100)]
proof fn lemma_parse_inner(e: SpecExpr, s: Seq<char>, pos: int)
    requires
        e is Apply,
        printable(e),
        text_at(
            s,
            pos,
            spec_print_operand(*e->Apply_0) + seq![' '] + spec_print_operand(*e->Apply_1),
        ),
        pos + (spec_print_operand(*e->Apply_0) + seq![' '] + spec_print_operand(
            *e->Apply_1,
        )).len() < s.len(),
        s[pos + (spec_print_operand(*e->Apply_0) + seq![' '] + spec_print_operand(
            *e->Apply_1,
        )).len()] == ')',
    ensures
        spec_parse_expression(s, pos) == (
            Ok::<SpecExpr, ParseError>(e),
            pos + spec_print_operand(*e->Apply_0).len() + 1 + spec_print_operand(
                *e->Apply_1,
            ).len(),
        ),
    decreases e, 1int, 0int,
{
    reveal_with_fuel(printable, 2);
    reveal_with_fuel(spec_parse_expression, 2);
    reveal_with_fuel(spec_parse_apply, 3);
    reveal_with_fuel(spec_parse_document, 2);
    reveal_with_fuel(spec_parse_document_rest, 2);
    let f = *e->Apply_0;
    let a = *e->Apply_1;
    let pf = spec_print_operand(f);
    let pa = spec_print_operand(a);
    assert(e == SpecExpr::Apply(Box::new(f), Box::new(a)));
    lemma_text_split(s, pos, pf + seq![' '], pa);
    lemma_text_split(s, pos, pf, seq![' ']);
    lemma_text_chars(s, pos, pf);
    lemma_text_chars(s, pos + pf.len(), seq![' ']);
    lemma_print_operand_head(f);
    assert(s[pos] == pf[0]) by {
        assert(s[pos + 0] == pf[0]);
    };
    assert(s[pos + pf.len()] == ' ') by {
        assert(s[pos + pf.len() + 0] == (seq![' '])[0]);
    };
    let en = pos + pf.len();
    lemma_print_operand_head(a);
    lemma_text_chars(s, en + 1, pa);
    assert(s[en + 1] == pa[0]) by {
        assert(s[en + 1 + 0] == pa[0]);
    };
    if spec_word_char(pa[0]) {
        lemma_word_char_facts(pa[0]);
    }
    assert(!spec_is_ws(pa[0]));
    assert(pa[0] != '=');
    lemma_skip_ws_fix(s, en + 1);
    assert(spec_skip_ws(s, en) == en + 1);
    let end1 = en + 1 + pa.len();
    assert(s[end1] == ')');
    lemma_skip_ws_fix(s, end1);
    lemma_parse_print_atom(a, s, en + 1);
    // one atom is applied to the head, then the chain stops at `)`
    assert(spec_parse_apply(s, en, f) == (Ok::<SpecExpr, ParseError>(e), end1));
    assert(spec_parse_apply(s, en + 1, f) == (Ok::<SpecExpr, ParseError>(e), end1));
    if f is Var {
        let name = f->Var_0;
        assert(pf == name);
        assert(word_ok(name) && name[0] != 'L');
        lemma_word_char_facts(name[0]);
        lemma_skip_ws_fix(s, pos);
        lemma_scan_word(s, pos, name);
        assert(s.subrange(pos, en) =~= name);
    } else {
        // the head operand is parenthesized: its own parentheses for an
        // application or a sequence, added ones for a lambda or define
        assert(pf[0] == '(');
        lemma_skip_ws_fix(s, pos);
        if f is Apply {
            let pff = spec_print_operand(*f->Apply_0);
            let pfa = spec_print_operand(*f->Apply_1);
            assert(pf == seq!['('] + (pff + seq![' '] + pfa) + seq![')']) by {
                assert(seq!['('] + pff + seq![' '] + pfa + seq![')'] =~= seq!['('] + (pff
                    + seq![' '] + pfa) + seq![')']);
            };
            lemma_text_split(s, pos, seq!['('] + (pff + seq![' '] + pfa), seq![')']);
            lemma_text_split(s, pos, seq!['('], pff + seq![' '] + pfa);
            lemma_text_chars(s, pos + 1 + (pff + seq![' '] + pfa).len(), seq![')']);
            assert(s[en - 1] == ')') by {
                assert(s[pos + 1 + (pff + seq![' '] + pfa).len() + 0] == (seq![')'])[0]);
            };
            lemma_skip_ws_fix(s, en - 1);
            lemma_parse_inner(f, s, pos + 1);
            lemma_print_operand_head(*f->Apply_0);
            lemma_text_chars(s, pos + 1, pff + seq![' '] + pfa);
            assert(s[pos + 1] == pff[0]) by {
                assert(s[pos + 1 + 0] == (pff + seq![' '] + pfa)[0]);
            };
            if spec_word_char(s[pos + 1]) {
                lemma_word_char_facts(s[pos + 1]);
            }
            assert(!spec_is_ws(s[pos + 1]));
            lemma_skip_ws_fix(s, pos + 1);
            assert(spec_parse_document_rest(s, pos + 1, Seq::empty()) == (
                Ok::<Seq<SpecExpr>, ParseError>(seq![f]),
                en - 1,
            )) by {
                assert(Seq::<SpecExpr>::empty().push(f) =~= seq![f]);
            };
            assert(seq![f].len() == 1 && seq![f][0] == f);
        } else if f is Sequence {
            let fitems = f->Sequence_0;
            assert(f == SpecExpr::Sequence(fitems));
            assert(pf == seq!['('] + spec_print_items(fitems, 0) + seq![')']);
            lemma_text_split(s, pos, seq!['('] + spec_print_items(fitems, 0), seq![')']);
            lemma_text_split(s, pos, seq!['('], spec_print_items(fitems, 0));
            lemma_text_chars(s, pos + 1 + spec_print_items(fitems, 0).len(), seq![')']);
            assert(s[en - 1] == ')') by {
                assert(s[pos + 1 + spec_print_items(fitems, 0).len() + 0] == (seq![')'])[0]);
            };
            lemma_skip_ws_fix(s, en - 1);
            lemma_print_items_head(fitems, 0);
            lemma_text_chars(s, pos + 1, spec_print_items(fitems, 0));
            assert(s[pos + 1] == spec_print_items(fitems, 0)[0]) by {
                assert(s[pos + 1 + 0] == spec_print_items(fitems, 0)[0]);
            };
            lemma_skip_ws_fix(s, pos + 1);
            lemma_parse_print_items(fitems, 0, s, pos + 1, Seq::empty());
            assert(Seq::<SpecExpr>::empty() + fitems.skip(0) =~= fitems);
            assert(fitems.len() != 1);
        } else {
            // a lambda or a define, wrapped by the printer
            assert(pf == seq!['('] + spec_print(f) + seq![')']);
            lemma_text_split(s, pos, seq!['('] + spec_print(f), seq![')']);
            lemma_text_split(s, pos, seq!['('], spec_print(f));
            lemma_text_chars(s, pos + 1 + spec_print(f).len(), seq![')']);
            assert(s[en - 1] == ')') by {
                assert(s[pos + 1 + spec_print(f).len() + 0] == (seq![')'])[0]);
            };
            lemma_skip_ws_fix(s, en - 1);
            lemma_print_head(f);
            lemma_text_chars(s, pos + 1, spec_print(f));
            assert(s[pos + 1] == spec_print(f)[0]) by {
                assert(s[pos + 1 + 0] == spec_print(f)[0]);
            };
            if spec_word_char(s[pos + 1]) {
                lemma_word_char_facts(s[pos + 1]);
            }
            assert(!spec_is_ws(s[pos + 1]));
            lemma_skip_ws_fix(s, pos + 1);
            lemma_parse_print(f, s, pos + 1);
            assert(spec_parse_document_rest(s, pos + 1, Seq::empty()) == (
                Ok::<Seq<SpecExpr>, ParseError>(seq![f]),
                en - 1,
            )) by {
                assert(Seq::<SpecExpr>::empty().push(f) =~= seq![f]);
            };
            assert(seq![f].len() == 1 && seq![f][0] == f);
        }
    }
}

/// Parsing a printed operand — a bare word for a variable, anything else
/// inside parentheses — yields it back exactly as one atom.
#[verifier::rlimit(100)]
proof fn lemma_parse_print_atom(a: SpecExpr, s: Seq<char>, pos: int)
    requires
        printable(a),
        text_at(s, pos, spec_print_operand(a)),
        pos + spec_print_operand(a).len() == s.len() || !spec_word_char(
            s[pos + spec_print_operand(a).len()],
        ),
    ensures
        spec_parse_atom(s, pos) == (
            Ok::<SpecExpr, ParseError>(a),
            pos + spec_print_operand(a).len(),
        ),
    decreases a, 3int, 0int,
{
    reveal_with_fuel(printable, 2);
    reveal_with_fuel(spec_parse_document, 2);
    reveal_with_fuel(spec_parse_document_rest, 2);
    let pa = spec_print_operand(a);
    let j = pos + pa.len();
    lemma_print_operand_head(a);
    lemma_text_chars(s, pos, pa);
    assert(s[pos] == pa[0]) by {
        assert(s[pos + 0] == pa[0]);
    };
    if a is Var {
        let name = a->Var_0;
        assert(pa == name);
        lemma_word_char_facts(s[pos]);
        lemma_scan_word(s, pos, name);
        assert(s.subrange(pos, j) =~= name);
    } else if a is Apply {
        let pf = spec_print_operand(*a->Apply_0);
        let pg = spec_print_operand(*a->Apply_1);
        assert(pa == seq!['('] + (pf + seq![' '] + pg) + seq![')']) by {
            assert(seq!['('] + pf + seq![' '] + pg + seq![')'] =~= seq!['('] + (pf + seq![
                ' '
            ] + pg) + seq![')']);
        };
        lemma_text_split(s, pos, seq!['('] + (pf + seq![' '] + pg), seq![')']);
        lemma_text_split(s, pos, seq!['('], pf + seq![' '] + pg);
        lemma_text_chars(s, pos + 1 + (pf + seq![' '] + pg).len(), seq![')']);
        assert(s[j - 1] == ')') by {
            assert(s[pos + 1 + (pf + seq![' '] + pg).len() + 0] == (seq![')'])[0]);
        };
        lemma_parse_inner(a, s, pos + 1);
        lemma_print_operand_head(*a->Apply_0);
        lemma_text_chars(s, pos + 1, pf + seq![' '] + pg);
        assert(s[pos + 1] == pf[0]) by {
            assert(s[pos + 1 + 0] == (pf + seq![' '] + pg)[0]);
        };
        if spec_word_char(s[pos + 1]) {
            lemma_word_char_facts(s[pos + 1]);
        }
        assert(!spec_is_ws(s[pos + 1]));
        lemma_skip_ws_fix(s, pos + 1);
        lemma_skip_ws_fix(s, j - 1);
        assert(spec_parse_document_rest(s, pos + 1, Seq::empty()) == (
            Ok::<Seq<SpecExpr>, ParseError>(seq![a]),
            j - 1,
        )) by {
            assert(Seq::<SpecExpr>::empty().push(a) =~= seq![a]);
        };
        assert(seq![a].len() == 1 && seq![a][0] == a);
    } else if a is Sequence {
        let items = a->Sequence_0;
        assert(a == SpecExpr::Sequence(items));
        assert(pa == seq!['('] + spec_print_items(items, 0) + seq![')']);
        lemma_text_split(s, pos, seq!['('] + spec_print_items(items, 0), seq![')']);
        lemma_text_split(s, pos, seq!['('], spec_print_items(items, 0));
        lemma_text_chars(s, pos + 1 + spec_print_items(items, 0).len(), seq![')']);
        assert(s[j - 1] == ')') by {
            assert(s[pos + 1 + spec_print_items(items, 0).len() + 0] == (seq![')'])[0]);
        };
        lemma_print_items_head(items, 0);
        lemma_text_chars(s, pos + 1, spec_print_items(items, 0));
        assert(s[pos + 1] == spec_print_items(items, 0)[0]) by {
            assert(s[pos + 1 + 0] == spec_print_items(items, 0)[0]);
        };
        lemma_skip_ws_fix(s, pos + 1);
        lemma_skip_ws_fix(s, j - 1);
        lemma_parse_print_items(items, 0, s, pos + 1, Seq::empty());
        assert(Seq::<SpecExpr>::empty() + items.skip(0) =~= items);
        assert(items.len() != 1);
    } else {
        // a lambda or a define, wrapped by the printer
        assert(pa == seq!['('] + spec_print(a) + seq![')']);
        lemma_text_split(s, pos, seq!['('] + spec_print(a), seq![')']);
        lemma_text_split(s, pos, seq!['('], spec_print(a));
        lemma_text_chars(s, pos + 1 + spec_print(a).len(), seq![')']);
        assert(s[j - 1] == ')') by {
            assert(s[pos + 1 + spec_print(a).len() + 0] == (seq![')'])[0]);
        };
        lemma_print_head(a);
        lemma_text_chars(s, pos + 1, spec_print(a));
        assert(s[pos + 1] == spec_print(a)[0]) by {
            assert(s[pos + 1 + 0] == spec_print(a)[0]);
        };
        if spec_word_char(s[pos + 1]) {
            lemma_word_char_facts(s[pos + 1]);
        }
        assert(!spec_is_ws(s[pos + 1]));
        lemma_skip_ws_fix(s, pos + 1);
        lemma_skip_ws_fix(s, j - 1);
        lemma_parse_print(a, s, pos + 1);
        assert(spec_parse_document_rest(s, pos + 1, Seq::empty()) == (
            Ok::<Seq<SpecExpr>, ParseError>(seq![a]),
            j - 1,
        )) by {
            assert(Seq::<SpecExpr>::empty().push(a) =~= seq![a]);
        };
        assert(seq![a].len() == 1 && seq![a][0] == a);
    }
}

/// Parsing the printed items of a sequence from item `i` on, with `)`
/// right after the last, walks exactly those items.
#[verifier::rlimit(100)]
proof fn lemma_parse_print_items(
    items: Seq<SpecExpr>,
    i: int,
    s: Seq<char>,
    pos: int,
    acc: Seq<SpecExpr>,
)
    requires
        printable_list(items),
        0 <= i < items.len(),
        0 <= pos <= s.len(),
        text_at(s, spec_skip_ws(s, pos), spec_print_items(items, i)),
        spec_skip_ws(s, pos) + spec_print_items(items, i).len() < s.len(),
        s[spec_skip_ws(s, pos) + spec_print_items(items, i).len()] == ')',
    ensures
        spec_parse_document_rest(s, pos, acc) == (
            Ok::<Seq<SpecExpr>, ParseError>(acc + items.skip(i)),
            spec_skip_ws(s, pos) + spec_print_items(items, i).len(),
        ),
    decreases items, 1int, items.len() - i,
{
    let p = spec_skip_ws(s, pos);
    let pi = spec_print_items(items, i);
    let j = p + pi.len();
    lemma_skip_ws_bounds(s, pos);
    lemma_printable_list_elem(items, i);
    lemma_print_head(items[i]);
    lemma_text_chars(s, p, pi);
    if i == items.len() - 1 {
        assert(pi == spec_print(items[i]));
        lemma_skip_ws_fix(s, p);
        lemma_parse_print(items[i], s, p);
        lemma_skip_ws_fix(s, j);
        assert(acc.push(items[i]) =~= acc + items.skip(i));
    } else {
        let pe = spec_print(items[i]);
        let rest = spec_print_items(items, i + 1);
        assert(pi == pe + seq![';', ' '] + rest);
        lemma_text_split(s, p, pe + seq![';', ' '], rest);
        lemma_text_split(s, p, pe, seq![';', ' ']);
        lemma_text_chars(s, p + pe.len(), seq![';', ' ']);
        assert(s[p + pe.len()] == ';' && s[p + pe.len() + 1] == ' ') by {
            assert(s[p + pe.len() + 0] == (seq![';', ' '])[0]);
            assert(s[p + pe.len() + 1] == (seq![';', ' '])[1]);
        };
        assert(s[p] == pi[0]) by {
            assert(s[p + 0] == pi[0]);
        };
        lemma_skip_ws_fix(s, p);
        lemma_parse_print(items[i], s, p);
        let semi = p + pe.len();
        lemma_skip_ws_fix(s, semi);
        // the next item follows `; `
        lemma_printable_list_elem(items, i + 1);
        lemma_print_items_head(items, i + 1);
        lemma_text_chars(s, semi + 2, rest);
        assert(s[semi + 2] == rest[0]) by {
            assert(s[semi + 2 + 0] == rest[0]);
        };
        assert(!spec_is_ws(rest[0]));
        lemma_skip_ws_fix(s, semi + 2);
        assert(spec_skip_ws(s, semi + 1) == semi + 2);
        lemma_parse_print_items(items, i + 1, s, semi + 1, acc.push(items[i]));
        assert(acc.push(items[i]) + items.skip(i + 1) =~= acc + items.skip(i));
    }
}

/// A printed item list opens with its first item's first character.
proof fn lemma_print_items_head(items: Seq<SpecExpr>, i: int)
    requires
        printable_list(items),
        0 <= i < items.len(),
    ensures
        spec_print_items(items, i).len() >= 1,
        spec_print_items(items, i)[0] == spec_print(items[i])[0],
        !spec_is_ws(spec_print_items(items, i)[0]),
{
    lemma_printable_list_elem(items, i);
    lemma_print_head(items[i]);
    if i < items.len() - 1 {
        assert(spec_print_items(items, i)[0] == (spec_print(items[i]) + seq![';', ' '])[0]);
    }
    if spec_word_char(spec_print_items(items, i)[0]) {
        lemma_word_char_facts(spec_print_items(items, i)[0]);
    }
}

/// Round trip: parsing the printed text of a printable expression yields
/// exactly that expression, the whole text consumed.
pub proof fn lemma_parse_print_round_trip(e: SpecExpr)
    requires
        printable(e),
    ensures
        spec_parse(spec_print(e)) == (Ok::<SpecExpr, ParseError>(e), spec_print(e).len() as int),
        spec_parse_document(spec_print(e), 0) == (
            Ok::<SpecExpr, ParseError>(e),
            spec_print(e).len() as int,
        ),
{
    let s = spec_print(e);
    lemma_print_head(e);
    assert(text_at(s, 0, s)) by {
        assert(s.subrange(0, s.len() as int) =~= s);
    };
    assert(s[0int + 0] == s[0int]);
    if spec_word_char(s[0]) {
        lemma_word_char_facts(s[0]);
    }
    lemma_skip_ws_fix(s, 0);
    lemma_parse_print(e, s, 0);
    lemma_skip_ws_fix(s, s.len() as int);
    assert(spec_parse_document_rest(s, 0, Seq::empty()) == (
        Ok::<Seq<SpecExpr>, ParseError>(seq![e]),
        s.len() as int,
    )) by {
        assert(Seq::<SpecExpr>::empty().push(e) =~= seq![e]);
    };
    assert(seq![e].len() == 1 && seq![e][0] == e);
}

} // verus!
