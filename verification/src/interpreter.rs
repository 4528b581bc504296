use vstd::prelude::*;

use crate::ast::Expr;
use crate::ast::SpecExpr;
use crate::ast::expr_model;

verus! {

/// The result of evaluation: either a closure (parameter list, unevaluated
/// body, and a snapshot of the defining environment) or the unit value.
#[derive(Debug, PartialEq)]
pub enum Value {
    Closure(Vec<String>, Box<Expr>, Env),
    Unit,
}

/// An environment: an ordered mapping from names to values.  Lookup finds
/// the first entry with a matching name; insertion overwrites the first
/// matching entry in place or appends a fresh one, so names stay distinct.
#[derive(Debug, PartialEq)]
pub struct Env {
    pub entries: Vec<(String, Value)>,
}

/// The model of an environment: bindings in insertion order.
pub type SpecEnv = Seq<(Seq<char>, SpecValue)>;

/// The model of a value.  A closure's captured environment is modelled as
/// the ordered binding list it held when the closure was created.
#[verifier::ext_equal]
pub enum SpecValue {
    Closure(Seq<Seq<char>>, SpecExpr, SpecEnv),
    Unit,
}

/// The model of a value.
pub open spec fn value_model(v: Value) -> SpecValue
    decreases v,
{
    match v {
        Value::Closure(params, body, env) => SpecValue::Closure(
            params.deep_view(),
            expr_model(*body),
            entries_model(env.entries@),
        ),
        Value::Unit => SpecValue::Unit,
    }
}

/// The model of a binding list.
pub open spec fn entries_model(s: Seq<(String, Value)>) -> SpecEnv
    decreases s,
{
    if s.len() == 0 {
        Seq::empty()
    } else {
        seq![(s[0].0@, value_model(s[0].1))] + entries_model(s.drop_first())
    }
}

/// `entries_model` maps the binding list elementwise.
pub broadcast proof fn lemma_entries_model(s: Seq<(String, Value)>)
    ensures
        (#[trigger] entries_model(s)).len() == s.len(),
        forall|i: int|
            0 <= i < s.len() ==> entries_model(s)[i] == (s[i].0@, value_model(s[i].1)),
    decreases s,
{
    if s.len() > 0 {
        lemma_entries_model(s.drop_first());
    }
}

impl View for Value {
    type V = SpecValue;

    open spec fn view(&self) -> SpecValue {
        value_model(*self)
    }
}

impl View for Env {
    type V = SpecEnv;

    open spec fn view(&self) -> SpecEnv {
        entries_model(self.entries@)
    }
}

impl Clone for Value {
    /// Cloning preserves the model.
    fn clone(&self) -> (res: Self)
        ensures
            res@ == self@,
        decreases self,
    {
        match self {
            Value::Closure(params, body, env) => {
                let ps = params.clone();
                proof {
                    assert(ps.deep_view() =~= params.deep_view());
                }
                Value::Closure(ps, Box::new((**body).clone()), env.clone())
            },
            Value::Unit => Value::Unit,
        }
    }
}

impl Clone for Env {
    /// Cloning preserves the model: a snapshot is structurally independent
    /// of the environment it was taken from.
    #[verifier::loop_isolation(false)]
    fn clone(&self) -> (res: Self)
        ensures
            res@ == self@,
        decreases self,
    {
        let mut out: Vec<(String, Value)> = Vec::new();
        let mut i: usize = 0;
        while i < self.entries.len()
            invariant
                i <= self.entries@.len(),
                out@.len() == i as int,
                forall|j: int| #![all_triggers]
                    0 <= j < i ==> out@[j].0@ == self.entries@[j].0@
                        && out@[j].1@ == self.entries@[j].1@,
            decreases self.entries@.len() - i,
        {
            let name = self.entries[i].0.clone();
            let val = self.entries[i].1.clone();
            out.push((name, val));
            i = i + 1;
        }
        proof {
            lemma_entries_model(out@);
            lemma_entries_model(self.entries@);
            assert(entries_model(out@) =~= entries_model(self.entries@));
        }
        Env { entries: out }
    }
}

/// The value bound to `name`: the first binding with that name wins.
pub open spec fn env_lookup(env: SpecEnv, name: Seq<char>) -> Option<SpecValue>
    decreases env,
{
    if env.len() == 0 {
        None
    } else if env[0].0 == name {
        Some(env[0].1)
    } else {
        env_lookup(env.drop_first(), name)
    }
}

/// `env` with `name` bound to `v`: the first binding with that name is
/// overwritten in place; absent a match the binding is appended.
pub open spec fn env_insert(env: SpecEnv, name: Seq<char>, v: SpecValue) -> SpecEnv
    decreases env,
{
    if env.len() == 0 {
        seq![(name, v)]
    } else if env[0].0 == name {
        seq![(name, v)] + env.drop_first()
    } else {
        seq![env[0]] + env_insert(env.drop_first(), name, v)
    }
}

/// `env` without its first binding for `name` (unchanged if none exists).
pub open spec fn env_remove(env: SpecEnv, name: Seq<char>) -> SpecEnv
    decreases env,
{
    if env.len() == 0 {
        env
    } else if env[0].0 == name {
        env.drop_first()
    } else {
        seq![env[0]] + env_remove(env.drop_first(), name)
    }
}

/// If the first binding for `name` stands at index `i`, lookup returns it.
pub proof fn lemma_env_lookup_found(env: SpecEnv, name: Seq<char>, i: int)
    requires
        0 <= i < env.len(),
        env[i].0 == name,
        forall|j: int| 0 <= j < i ==> env[j].0 != name,
    ensures
        env_lookup(env, name) == Some(env[i].1),
    decreases i,
{
    if i > 0 {
        lemma_env_lookup_found(env.drop_first(), name, i - 1);
    }
}

/// If no binding carries `name`, lookup fails.
proof fn lemma_env_lookup_absent(env: SpecEnv, name: Seq<char>)
    requires
        forall|j: int| 0 <= j < env.len() ==> env[j].0 != name,
    ensures
        env_lookup(env, name) is None,
    decreases env,
{
    if env.len() > 0 {
        lemma_env_lookup_absent(env.drop_first(), name);
    }
}

/// If the first binding for `name` stands at index `i`, insertion
/// overwrites it in place.
pub proof fn lemma_env_insert_found(env: SpecEnv, name: Seq<char>, v: SpecValue, i: int)
    requires
        0 <= i < env.len(),
        env[i].0 == name,
        forall|j: int| 0 <= j < i ==> env[j].0 != name,
    ensures
        env_insert(env, name, v) == env.update(i, (name, v)),
    decreases i,
{
    if i == 0 {
        assert(env_insert(env, name, v) =~= env.update(0, (name, v)));
    } else {
        lemma_env_insert_found(env.drop_first(), name, v, i - 1);
        assert(env_insert(env, name, v) =~= env.update(i, (name, v)));
    }
}

/// If no binding carries `name`, insertion appends.
proof fn lemma_env_insert_absent(env: SpecEnv, name: Seq<char>, v: SpecValue)
    requires
        forall|j: int| 0 <= j < env.len() ==> env[j].0 != name,
    ensures
        env_insert(env, name, v) == env.push((name, v)),
    decreases env,
{
    if env.len() == 0 {
        assert(env_insert(env, name, v) =~= env.push((name, v)));
    } else {
        lemma_env_insert_absent(env.drop_first(), name, v);
        assert(env_insert(env, name, v) =~= env.push((name, v)));
    }
}

/// If the first binding for `name` stands at index `i`, removal deletes it.
proof fn lemma_env_remove_found(env: SpecEnv, name: Seq<char>, i: int)
    requires
        0 <= i < env.len(),
        env[i].0 == name,
        forall|j: int| 0 <= j < i ==> env[j].0 != name,
    ensures
        env_remove(env, name) == env.remove(i),
    decreases i,
{
    if i == 0 {
        assert(env_remove(env, name) =~= env.remove(0));
    } else {
        lemma_env_remove_found(env.drop_first(), name, i - 1);
        assert(env_remove(env, name) =~= env.remove(i));
    }
}

/// If no binding carries `name`, removal changes nothing.
proof fn lemma_env_remove_absent(env: SpecEnv, name: Seq<char>)
    requires
        forall|j: int| 0 <= j < env.len() ==> env[j].0 != name,
    ensures
        env_remove(env, name) == env,
    decreases env,
{
    if env.len() > 0 {
        lemma_env_remove_absent(env.drop_first(), name);
        assert(env_remove(env, name) =~= env);
    }
}

/// The divergence guard: evaluation fails with `DivergenceDetected` once
/// the number of beta-reductions in one top-level call passes this ceiling.
/// A tunable bound, not a semantic constant.
pub const STEP_CEILING: u64 = 10000;

/// An evaluation error.  Every error is terminal: the evaluator surfaces
/// the first one encountered and halts.
#[derive(Debug, PartialEq)]
pub enum EvalError {
    UnboundVariable(String),
    NotAFunction,
    TooManyArguments,
    DivergenceDetected,
}

/// The model of an evaluation error.
pub enum SpecEvalError {
    UnboundVariable(Seq<char>),
    NotAFunction,
    TooManyArguments,
    DivergenceDetected,
}

impl View for EvalError {
    type V = SpecEvalError;

    open spec fn view(&self) -> SpecEvalError {
        match self {
            EvalError::UnboundVariable(name) => SpecEvalError::UnboundVariable(name@),
            EvalError::NotAFunction => SpecEvalError::NotAFunction,
            EvalError::TooManyArguments => SpecEvalError::TooManyArguments,
            EvalError::DivergenceDetected => SpecEvalError::DivergenceDetected,
        }
    }
}

/// Everything one evaluation call leaves behind: its result, the
/// environment as the call left it, and the updated reduction count.
#[verifier::ext_equal]
pub struct SpecOutcome {
    pub result: Result<SpecValue, SpecEvalError>,
    pub env: SpecEnv,
    pub steps: nat,
}

/// Reduction budget still available below `steps`; drives termination of
/// the evaluator, since beta-reduction alone can rebuild larger terms.
pub open spec fn fuel_left(steps: nat) -> nat {
    if steps <= STEP_CEILING as nat {
        (STEP_CEILING as nat + 1 - steps) as nat
    } else {
        0
    }
}

/// The larger of two counts.
pub open spec fn nat_max(a: nat, b: nat) -> nat {
    if a < b {
        b
    } else {
        a
    }
}

/// `env` after deleting every name in `names`, left to right.
pub open spec fn remove_all(env: SpecEnv, names: Seq<Seq<char>>) -> SpecEnv
    decreases names,
{
    if names.len() == 0 {
        env
    } else {
        remove_all(env_remove(env, names[0]), names.drop_first())
    }
}

/// `env` after rebinding every saved binding, left to right.
pub open spec fn reinstate_all(env: SpecEnv, saved: SpecEnv) -> SpecEnv
    decreases saved,
{
    if saved.len() == 0 {
        env
    } else {
        reinstate_all(env_insert(env, saved[0].0, saved[0].1), saved.drop_first())
    }
}

/// The evaluator, as a mathematical function.
///
/// - `Var`: look the name up; unbound names are an error.
/// - `Lambda`: capture the current environment in a closure.
/// - `Apply`: count one reduction against the ceiling, evaluate the
///   function and then the argument, bind the closure's first parameter to
///   the argument in a copy of the captured environment, and either return
///   the partially-applied closure or evaluate the body under the extended
///   captured environment.  The caller's environment is unaffected by the
///   body's evaluation.
/// - `Define`: evaluate the right-hand side, bind the name, return the value.
/// - `Sequence`: see `spec_eval_seq`.
///
/// The `nat_max` guards only normalize the step count and never bite:
/// `lemma_spec_eval_steps` shows the count never decreases.
pub open spec fn spec_eval(e: SpecExpr, env: SpecEnv, steps: nat) -> SpecOutcome
    decreases fuel_left(steps), e, 0int,
{
    match e {
        SpecExpr::Var(name) => match env_lookup(env, name) {
            Some(v) => SpecOutcome { result: Ok(v), env, steps },
            None => SpecOutcome {
                result: Err(SpecEvalError::UnboundVariable(name)),
                env,
                steps,
            },
        },
        SpecExpr::Lambda(params, body) => SpecOutcome {
            result: Ok(SpecValue::Closure(params, *body, env)),
            env,
            steps,
        },
        SpecExpr::Apply(func, arg) => {
            let s1 = steps + 1;
            if s1 > STEP_CEILING as nat {
                SpecOutcome { result: Err(SpecEvalError::DivergenceDetected), env, steps: s1 }
            } else {
                let rf = spec_eval(*func, env, s1);
                match rf.result {
                    Err(err) => SpecOutcome { result: Err(err), env: rf.env, steps: rf.steps },
                    Ok(fv) => {
                        let s2 = nat_max(s1, rf.steps);
                        let ra = spec_eval(*arg, rf.env, s2);
                        match ra.result {
                            Err(err) => SpecOutcome {
                                result: Err(err),
                                env: ra.env,
                                steps: ra.steps,
                            },
                            Ok(av) => match fv {
                                SpecValue::Unit => SpecOutcome {
                                    result: Err(SpecEvalError::NotAFunction),
                                    env: ra.env,
                                    steps: ra.steps,
                                },
                                SpecValue::Closure(params, body, cenv) => {
                                    if params.len() == 0 {
                                        SpecOutcome {
                                            result: Err(SpecEvalError::TooManyArguments),
                                            env: ra.env,
                                            steps: ra.steps,
                                        }
                                    } else {
                                        let benv = env_insert(cenv, params[0], av);
                                        if params.len() == 1 {
                                            let s3 = nat_max(s2, ra.steps);
                                            let rb = spec_eval(body, benv, s3);
                                            SpecOutcome {
                                                result: rb.result,
                                                env: ra.env,
                                                steps: rb.steps,
                                            }
                                        } else {
                                            SpecOutcome {
                                                result: Ok(SpecValue::Closure(
                                                    params.drop_first(),
                                                    body,
                                                    benv,
                                                )),
                                                env: ra.env,
                                                steps: ra.steps,
                                            }
                                        }
                                    }
                                },
                            },
                        }
                    },
                }
            }
        },
        SpecExpr::Define(name, rhs) => {
            let r = spec_eval(*rhs, env, steps);
            match r.result {
                Err(err) => SpecOutcome { result: Err(err), env: r.env, steps: r.steps },
                Ok(v) => SpecOutcome {
                    result: Ok(v),
                    env: env_insert(r.env, name, v),
                    steps: r.steps,
                },
            }
        },
        SpecExpr::Sequence(items) => spec_eval_seq(
            items,
            0,
            env,
            steps,
            SpecValue::Unit,
            Seq::empty(),
            Seq::empty(),
        ),
    }
}

/// One walk over the items of a `Sequence`, from position `i` on.
///
/// `last` is the value of the last non-`Define` item seen so far (`Unit`
/// when there is none yet).  A `Define` item evaluates its right-hand side
/// and binds its name at once; the first time the walk binds a name it
/// records how to undo it: `fresh` lists names that were new, `saved`
/// keeps the value each shadowed name had.  When the walk completes, the
/// recorded names are removed and the saved bindings reinstated, so the
/// sequence's bindings do not leak into the surrounding scope.  An error
/// aborts the walk immediately, without restoration.
pub open spec fn spec_eval_seq(
    items: Seq<SpecExpr>,
    i: int,
    env: SpecEnv,
    steps: nat,
    last: SpecValue,
    fresh: Seq<Seq<char>>,
    saved: SpecEnv,
) -> SpecOutcome
    decreases fuel_left(steps), items, items.len() - i,
{
    if i < 0 || i >= items.len() {
        SpecOutcome {
            result: Ok(last),
            env: reinstate_all(remove_all(env, fresh), saved),
            steps,
        }
    } else {
        match items[i] {
            SpecExpr::Define(name, rhs) => {
                let r = spec_eval(*rhs, env, steps);
                match r.result {
                    Err(err) => SpecOutcome { result: Err(err), env: r.env, steps: r.steps },
                    Ok(v) => {
                        let tracked_name = fresh.contains(name) || env_lookup(
                            saved,
                            name,
                        ) is Some;
                        let fresh2 = if tracked_name || env_lookup(r.env, name) is Some {
                            fresh
                        } else {
                            fresh.push(name)
                        };
                        let saved2 = if !tracked_name && env_lookup(r.env, name) is Some {
                            saved.push((name, env_lookup(r.env, name)->Some_0))
                        } else {
                            saved
                        };
                        spec_eval_seq(
                            items,
                            i + 1,
                            env_insert(r.env, name, v),
                            nat_max(steps, r.steps),
                            last,
                            fresh2,
                            saved2,
                        )
                    },
                }
            },
            _ => {
                let r = spec_eval(items[i], env, steps);
                match r.result {
                    Err(err) => SpecOutcome { result: Err(err), env: r.env, steps: r.steps },
                    Ok(v) => spec_eval_seq(
                        items,
                        i + 1,
                        r.env,
                        nat_max(steps, r.steps),
                        v,
                        fresh,
                        saved,
                    ),
                }
            },
        }
    }
}

/// The reduction count never goes down, and while the budget holds it
/// never passes the ceiling by more than the one count that trips the
/// divergence guard; a successful evaluation stays within the ceiling.
pub proof fn lemma_spec_eval_steps(e: SpecExpr, env: SpecEnv, steps: nat)
    ensures
        spec_eval(e, env, steps).steps >= steps,
        steps <= STEP_CEILING as nat ==> spec_eval(e, env, steps).steps <= STEP_CEILING as nat
            + 1,
        steps <= STEP_CEILING as nat && spec_eval(e, env, steps).result is Ok ==> spec_eval(
            e,
            env,
            steps,
        ).steps <= STEP_CEILING as nat,
    decreases fuel_left(steps), e, 0int,
{
    match e {
        SpecExpr::Apply(func, arg) => {
            let s1 = steps + 1;
            if s1 <= STEP_CEILING as nat {
                lemma_spec_eval_steps(*func, env, s1);
                let rf = spec_eval(*func, env, s1);
                if rf.result is Ok {
                    let s2 = nat_max(s1, rf.steps);
                    lemma_spec_eval_steps(*arg, rf.env, s2);
                    let ra = spec_eval(*arg, rf.env, s2);
                    if ra.result is Ok {
                        match rf.result->Ok_0 {
                            SpecValue::Closure(params, body, cenv) => {
                                if params.len() == 1 {
                                    let benv = env_insert(cenv, params[0], ra.result->Ok_0);
                                    let s3 = nat_max(s2, ra.steps);
                                    lemma_spec_eval_steps(body, benv, s3);
                                }
                            },
                            SpecValue::Unit => {},
                        }
                    }
                }
            }
        },
        SpecExpr::Define(_name, rhs) => {
            lemma_spec_eval_steps(*rhs, env, steps);
        },
        SpecExpr::Sequence(items) => {
            lemma_spec_eval_seq_steps(
                items,
                0,
                env,
                steps,
                SpecValue::Unit,
                Seq::empty(),
                Seq::empty(),
            );
        },
        _ => {},
    }
}

/// As `lemma_spec_eval_steps`, for the walk over a sequence's items.
proof fn lemma_spec_eval_seq_steps(
    items: Seq<SpecExpr>,
    i: int,
    env: SpecEnv,
    steps: nat,
    last: SpecValue,
    fresh: Seq<Seq<char>>,
    saved: SpecEnv,
)
    ensures
        spec_eval_seq(items, i, env, steps, last, fresh, saved).steps >= steps,
        steps <= STEP_CEILING as nat ==> spec_eval_seq(
            items,
            i,
            env,
            steps,
            last,
            fresh,
            saved,
        ).steps <= STEP_CEILING as nat + 1,
        steps <= STEP_CEILING as nat && spec_eval_seq(
            items,
            i,
            env,
            steps,
            last,
            fresh,
            saved,
        ).result is Ok ==> spec_eval_seq(items, i, env, steps, last, fresh, saved).steps
            <= STEP_CEILING as nat,
    decreases fuel_left(steps), items, items.len() - i,
{
    if 0 <= i < items.len() {
        match items[i] {
            SpecExpr::Define(name, rhs) => {
                lemma_spec_eval_steps(*rhs, env, steps);
                let r = spec_eval(*rhs, env, steps);
                if r.result is Ok {
                    let v = r.result->Ok_0;
                    let tracked_name = fresh.contains(name) || env_lookup(saved, name) is Some;
                    let fresh2 = if tracked_name || env_lookup(r.env, name) is Some {
                        fresh
                    } else {
                        fresh.push(name)
                    };
                    let saved2 = if !tracked_name && env_lookup(r.env, name) is Some {
                        saved.push((name, env_lookup(r.env, name)->Some_0))
                    } else {
                        saved
                    };
                    lemma_spec_eval_seq_steps(
                        items,
                        i + 1,
                        env_insert(r.env, name, v),
                        nat_max(steps, r.steps),
                        last,
                        fresh2,
                        saved2,
                    );
                }
            },
            _ => {
                lemma_spec_eval_steps(items[i], env, steps);
                let r = spec_eval(items[i], env, steps);
                if r.result is Ok {
                    lemma_spec_eval_seq_steps(
                        items,
                        i + 1,
                        r.env,
                        nat_max(steps, r.steps),
                        r.result->Ok_0,
                        fresh,
                        saved,
                    );
                }
            },
        }
    }
}

impl Env {
    /// The empty environment.
    pub fn new() -> (r: Env)
        ensures
            r@ == Seq::<(Seq<char>, SpecValue)>::empty(),
    {
        Env { entries: Vec::new() }
    }

    /// The index of the first binding for `name`, if any.
    #[verifier::loop_isolation(false)]
    fn find_index(&self, name: &String) -> (r: Option<usize>)
        ensures
            match r {
                Some(i) => 0 <= i < self.entries@.len() && self.entries@[i as int].0@ == name@
                    && forall|j: int| 0 <= j < i ==> self.entries@[j].0@ != name@,
                None => forall|j: int| 0 <= j < self.entries@.len()
                    ==> self.entries@[j].0@ != name@,
            },
    {
        let mut i: usize = 0;
        while i < self.entries.len()
            invariant
                i <= self.entries@.len(),
                forall|j: int| 0 <= j < i ==> self.entries@[j].0@ != name@,
            decreases self.entries@.len() - i,
        {
            if self.entries[i].0 == *name {
                return Some(i);
            }
            i = i + 1;
        }
        None
    }

    /// Look up `name`; the result is exactly what `env_lookup` says.
    pub fn get(&self, name: &String) -> (r: Option<&Value>)
        ensures
            match r {
                Some(v) => env_lookup(self@, name@) == Some(v@),
                None => env_lookup(self@, name@) is None,
            },
    {
        proof {
            lemma_entries_model(self.entries@);
        }
        match self.find_index(name) {
            Some(i) => {
                proof {
                    lemma_env_lookup_found(self@, name@, i as int);
                }
                Some(&self.entries[i].1)
            },
            None => {
                proof {
                    lemma_env_lookup_absent(self@, name@);
                }
                None
            },
        }
    }

    /// Bind `name` to `value`, overwriting any existing binding in place.
    pub fn insert(&mut self, name: String, value: Value)
        ensures
            final(self)@ == env_insert(old(self)@, name@, value@),
    {
        proof {
            lemma_entries_model(self.entries@);
        }
        match self.find_index(&name) {
            Some(i) => {
                proof {
                    lemma_env_insert_found(self@, name@, value@, i as int);
                }
                self.entries[i] = (name, value);
                proof {
                    lemma_entries_model(self.entries@);
                    assert(entries_model(self.entries@) =~= env_insert(
                        old(self)@,
                        name@,
                        value@,
                    ));
                }
            },
            None => {
                proof {
                    lemma_env_insert_absent(self@, name@, value@);
                }
                self.entries.push((name, value));
                proof {
                    lemma_entries_model(self.entries@);
                    assert(entries_model(self.entries@) =~= env_insert(
                        old(self)@,
                        name@,
                        value@,
                    ));
                }
            },
        }
    }

    /// Delete the binding for `name`, if any.
    pub fn remove(&mut self, name: &String)
        ensures
            final(self)@ == env_remove(old(self)@, name@),
    {
        proof {
            lemma_entries_model(self.entries@);
        }
        match self.find_index(name) {
            Some(i) => {
                proof {
                    lemma_env_remove_found(self@, name@, i as int);
                }
                let _ = self.entries.remove(i);
                proof {
                    lemma_entries_model(self.entries@);
                    assert(entries_model(self.entries@) =~= env_remove(old(self)@, name@));
                }
            },
            None => {
                proof {
                    lemma_env_remove_absent(self@, name@);
                }
            },
        }
    }

    /// The first name bound to a value structurally equal to `v`, if any
    /// — how a front end may print a name instead of a raw closure.
    #[verifier::loop_isolation(false)]
    pub fn bound_name(&self, v: &Value) -> (r: Option<String>)
        ensures
            match r {
                Some(n) => exists|i: int| #![auto]
                    0 <= i < self@.len() && self@[i] == (n@, v@) && (forall|j: int|
                        0 <= j < i ==> self@[j].1 != v@),
                None => forall|i: int| 0 <= i < self@.len() ==> self@[i].1 != v@,
            },
    {
        proof {
            lemma_entries_model(self.entries@);
        }
        let mut i: usize = 0;
        while i < self.entries.len()
            invariant
                i <= self.entries@.len(),
                forall|j: int| 0 <= j < i ==> self@[j].1 != v@,
            decreases self.entries@.len() - i,
        {
            if value_eq(&self.entries[i].1, v) {
                let n = self.entries[i].0.clone();
                proof {
                    assert(self@[i as int] == (n@, v@));
                }
                return Some(n);
            }
            i = i + 1;
        }
        None
    }

    /// The number of bindings.
    pub fn len(&self) -> (r: usize)
        ensures
            r == self@.len(),
    {
        proof {
            lemma_entries_model(self.entries@);
        }
        self.entries.len()
    }

    /// The binding at position `i`, in insertion order.
    pub fn entry_at(&self, i: usize) -> (r: &(String, Value))
        requires
            i < self@.len(),
        ensures
            (r.0@, r.1@) == self@[i as int],
    {
        proof {
            lemma_entries_model(self.entries@);
        }
        &self.entries[i]
    }
}

/// Are two names the same?
#[verifier::loop_isolation(false)]
fn names_eq(x: &Vec<String>, y: &Vec<String>) -> (r: bool)
    ensures
        r == (x.deep_view() == y.deep_view()),
{
    if x.len() != y.len() {
        proof {
            assert(x.deep_view().len() != y.deep_view().len());
        }
        return false;
    }
    let mut i: usize = 0;
    while i < x.len()
        invariant
            i <= x@.len(),
            x@.len() == y@.len(),
            forall|j: int| 0 <= j < i ==> x.deep_view()[j] == y.deep_view()[j],
        decreases x@.len() - i,
    {
        if !(x[i] == y[i]) {
            proof {
                assert(x.deep_view()[i as int] != y.deep_view()[i as int]);
            }
            return false;
        }
        i = i + 1;
    }
    proof {
        assert(x.deep_view() =~= y.deep_view());
    }
    true
}

/// Are two expressions structurally equal?  Decides model equality.
#[verifier::loop_isolation(false)]
#[verifier::rlimit(100)]
pub fn expr_eq(a: &Expr, b: &Expr) -> (r: bool)
    ensures
        r == (a@ == b@),
    decreases a,
{
    match (a, b) {
        (Expr::Var(n1), Expr::Var(n2)) => {
            let r0 = *n1 == *n2;
            proof {
                assert(a@ == SpecExpr::Var(n1@) && b@ == SpecExpr::Var(n2@));
                if n1@ == n2@ {
                    assert(a@ == b@);
                } else {
                    assert(a@ != b@);
                }
            }
            return r0;
        },
        (Expr::Lambda(p1, b1), Expr::Lambda(p2, b2)) => {
            let r0 = names_eq(p1, p2) && expr_eq(&**b1, &**b2);
            proof {
                assert(a@ == SpecExpr::Lambda(
                    p1.deep_view(),
                    Box::new((&**b1)@),
                ) && b@ == SpecExpr::Lambda(p2.deep_view(), Box::new((&**b2)@)));
                if p1.deep_view() == p2.deep_view() && (&**b1)@ == (&**b2)@ {
                    assert(a@ == b@);
                } else {
                    assert(a@ != b@);
                }
            }
            return r0;
        },
        (Expr::Apply(f1, a1), Expr::Apply(f2, a2)) => {
            let r0 = expr_eq(&**f1, &**f2) && expr_eq(&**a1, &**a2);
            proof {
                assert(a@ == SpecExpr::Apply(
                    Box::new((&**f1)@),
                    Box::new((&**a1)@),
                ) && b@ == SpecExpr::Apply(Box::new((&**f2)@), Box::new((&**a2)@)));
                if (&**f1)@ == (&**f2)@ && (&**a1)@ == (&**a2)@ {
                    assert(a@ == b@);
                } else {
                    assert(a@ != b@);
                }
            }
            return r0;
        },
        (Expr::Define(n1, r1), Expr::Define(n2, r2)) => {
            let r0 = *n1 == *n2 && expr_eq(&**r1, &**r2);
            proof {
                assert(a@ == SpecExpr::Define(n1@, Box::new((&**r1)@)) && b@
                    == SpecExpr::Define(n2@, Box::new((&**r2)@)));
                if n1@ == n2@ && (&**r1)@ == (&**r2)@ {
                    assert(a@ == b@);
                } else {
                    assert(a@ != b@);
                }
            }
            return r0;
        },
        (Expr::Sequence(i1), Expr::Sequence(i2)) => {
            proof {
                crate::ast::lemma_exprs_model(i1@);
                crate::ast::lemma_exprs_model(i2@);
            }
            if i1.len() != i2.len() {
                return false;
            }
            let mut i: usize = 0;
            while i < i1.len()
                invariant
                    i <= i1@.len(),
                    i1@.len() == i2@.len(),
                    forall|j: int| 0 <= j < i
                        ==> crate::ast::exprs_model(i1@)[j] == crate::ast::exprs_model(i2@)[j],
                decreases i1@.len() - i,
            {
                if !expr_eq(&i1[i], &i2[i]) {
                    proof {
                        assert(crate::ast::exprs_model(i1@)[i as int] != crate::ast::exprs_model(
                            i2@,
                        )[i as int]);
                    }
                    return false;
                }
                i = i + 1;
            }
            proof {
                assert(crate::ast::exprs_model(i1@) =~= crate::ast::exprs_model(i2@));
            }
            return true;
        },
        _ => {
            proof {
                assert(a@ != b@);
            }
            return false;
        },
    }
}

/// Are two values structurally equal?  Captured environments are
/// compared binding by binding, in order — structural equality, never
/// identity.
#[verifier::loop_isolation(false)]
pub fn value_eq(a: &Value, b: &Value) -> (r: bool)
    ensures
        r == (a@ == b@),
    decreases a,
{
    match (a, b) {
        (Value::Closure(p1, b1, e1), Value::Closure(p2, b2, e2)) => names_eq(p1, p2) && expr_eq(
            &**b1,
            &**b2,
        ) && env_eq(e1, e2),
        (Value::Unit, Value::Unit) => true,
        _ => false,
    }
}

/// Are two environments structurally equal: the same bindings, in the
/// same order?
#[verifier::loop_isolation(false)]
pub fn env_eq(a: &Env, b: &Env) -> (r: bool)
    ensures
        r == (a@ == b@),
    decreases a,
{
    proof {
        lemma_entries_model(a.entries@);
        lemma_entries_model(b.entries@);
    }
    if a.entries.len() != b.entries.len() {
        return false;
    }
    let mut i: usize = 0;
    while i < a.entries.len()
        invariant
            i <= a.entries@.len(),
            a.entries@.len() == b.entries@.len(),
            forall|j: int| 0 <= j < i ==> entries_model(a.entries@)[j] == entries_model(
                b.entries@,
            )[j],
        decreases a.entries@.len() - i,
    {
        if !(a.entries[i].0 == b.entries[i].0) || !value_eq(&a.entries[i].1, &b.entries[i].1) {
            proof {
                assert(entries_model(a.entries@)[i as int] != entries_model(
                    b.entries@,
                )[i as int]);
            }
            return false;
        }
        i = i + 1;
    }
    proof {
        assert(entries_model(a.entries@) =~= entries_model(b.entries@));
    }
    true
}

/// Does `names` hold `name`?
#[verifier::loop_isolation(false)]
fn contains_name(names: &Vec<String>, name: &String) -> (r: bool)
    ensures
        r == names.deep_view().contains(name@),
{
    let mut i: usize = 0;
    while i < names.len()
        invariant
            i <= names@.len(),
            forall|j: int| 0 <= j < i ==> names.deep_view()[j] != name@,
        decreases names@.len() - i,
    {
        if names[i] == *name {
            proof {
                assert(names.deep_view()[i as int] == name@);
            }
            return true;
        }
        i = i + 1;
    }
    proof {
        assert(!names.deep_view().contains(name@));
    }
    false
}

/// Does the binding list hold a binding for `name`?
#[verifier::loop_isolation(false)]
fn entries_has_name(entries: &Vec<(String, Value)>, name: &String) -> (r: bool)
    ensures
        r == (env_lookup(entries_model(entries@), name@) is Some),
{
    proof {
        lemma_entries_model(entries@);
    }
    let mut i: usize = 0;
    while i < entries.len()
        invariant
            i <= entries@.len(),
            forall|j: int| 0 <= j < i ==> entries@[j].0@ != name@,
        decreases entries@.len() - i,
    {
        if entries[i].0 == *name {
            proof {
                lemma_env_lookup_found(entries_model(entries@), name@, i as int);
            }
            return true;
        }
        i = i + 1;
    }
    proof {
        lemma_env_lookup_absent(entries_model(entries@), name@);
    }
    false
}

/// Evaluate `expr` under `env`, threading the beta-reduction count
/// through `step_count`.
///
/// The outcome — result, environment afterwards, and final count — is
/// exactly `spec_eval(expr@, old(env)@, *old(step_count) as nat)`; in
/// particular evaluation is deterministic and, by this function's very
/// termination, always finishes within bounded work.
#[verifier::loop_isolation(false)]
pub fn eval(expr: &Expr, env: &mut Env, step_count: &mut u64) -> (r: Result<Value, EvalError>)
    requires
        *old(step_count) <= STEP_CEILING,
    ensures
        ({
            let o = spec_eval(expr@, old(env)@, *old(step_count) as nat);
            &&& final(env)@ == o.env
            &&& *final(step_count) as nat == o.steps
            &&& match r {
                Ok(v) => o.result == Ok::<SpecValue, SpecEvalError>(v@),
                Err(err) => o.result == Err::<SpecValue, SpecEvalError>(err@),
            }
        }),
        *final(step_count) >= *old(step_count),
        *final(step_count) <= STEP_CEILING + 1,
        r is Ok ==> *final(step_count) <= STEP_CEILING,
    decreases fuel_left(*step_count as nat), expr,
{
    match expr {
        Expr::Var(name) => match env.get(name) {
            Some(v) => Ok(v.clone()),
            None => Err(EvalError::UnboundVariable(name.clone())),
        },
        Expr::Lambda(params, body) => {
            let ps = params.clone();
            proof {
                assert(ps.deep_view() =~= params.deep_view());
            }
            Ok(Value::Closure(ps, Box::new((**body).clone()), env.clone()))
        },
        Expr::Apply(func, arg) => {
            *step_count = *step_count + 1;
            if *step_count > STEP_CEILING {
                return Err(EvalError::DivergenceDetected);
            }
            let fv = match eval(&**func, env, step_count) {
                Ok(v) => v,
                Err(err) => return Err(err),
            };
            let av = match eval(&**arg, env, step_count) {
                Ok(v) => v,
                Err(err) => return Err(err),
            };
            match fv {
                Value::Closure(mut params, body, cenv) => {
                    if params.len() == 0 {
                        return Err(EvalError::TooManyArguments);
                    }
                    let ghost paramsv = params.deep_view();
                    let p = params.remove(0);
                    proof {
                        assert(params.deep_view() =~= paramsv.drop_first());
                    }
                    let mut benv = cenv;
                    benv.insert(p, av);
                    if params.len() == 0 {
                        eval(&*body, &mut benv, step_count)
                    } else {
                        Ok(Value::Closure(params, body, benv))
                    }
                },
                Value::Unit => Err(EvalError::NotAFunction),
            }
        },
        Expr::Define(name, rhs) => {
            let v = match eval(&**rhs, env, step_count) {
                Ok(v) => v,
                Err(err) => return Err(err),
            };
            let v2 = v.clone();
            env.insert(name.clone(), v);
            Ok(v2)
        },
        Expr::Sequence(items) => {
            let ghost itemsv = crate::ast::exprs_model(items@);
            let ghost target = spec_eval_seq(
                itemsv,
                0,
                old(env)@,
                *old(step_count) as nat,
                SpecValue::Unit,
                Seq::empty(),
                Seq::empty(),
            );
            proof {
                crate::ast::lemma_exprs_model(items@);
            }
            let mut last = Value::Unit;
            let mut fresh_names: Vec<String> = Vec::new();
            let mut saved: Vec<(String, Value)> = Vec::new();
            proof {
                broadcast use lemma_entries_model;

                assert(fresh_names.deep_view() =~= Seq::<Seq<char>>::empty());
                assert(entries_model(saved@) =~= Seq::<(Seq<char>, SpecValue)>::empty());
            }
            let mut i: usize = 0;
            while i < items.len()
                invariant
                    i <= items@.len(),
                    *step_count <= STEP_CEILING,
                    *step_count >= *old(step_count),
                    spec_eval_seq(
                        itemsv,
                        i as int,
                        env@,
                        *step_count as nat,
                        last@,
                        fresh_names.deep_view(),
                        entries_model(saved@),
                    ) == target,
                decreases items@.len() - i,
            {
                let ghost env0 = env@;
                let ghost steps0 = *step_count as nat;
                let ghost last0 = last@;
                let ghost fresh0 = fresh_names.deep_view();
                let ghost saved0 = entries_model(saved@);
                let item = &items[i];
                proof {
                    assert(itemsv[i as int] == item@);
                }
                match item {
                    Expr::Define(name, rhs) => {
                        let v = match eval(&**rhs, env, step_count) {
                            Ok(v) => v,
                            Err(err) => return Err(err),
                        };
                        let ghost ro = spec_eval((&**rhs)@, env0, steps0);
                        let tracked_name = contains_name(&fresh_names, name)
                            || entries_has_name(&saved, name);
                        if !tracked_name {
                            let prior = match env.get(name) {
                                Some(pv) => Some(pv.clone()),
                                None => None,
                            };
                            match prior {
                                Some(pv) => {
                                    proof {
                                        assert(pv@ == env_lookup(ro.env, name@)->Some_0);
                                    }
                                    saved.push((name.clone(), pv));
                                    proof {
                                        broadcast use lemma_entries_model;

                                        assert(entries_model(saved@) =~= saved0.push(
                                            (name@, env_lookup(ro.env, name@)->Some_0),
                                        ));
                                    }
                                },
                                None => {
                                    fresh_names.push(name.clone());
                                    proof {
                                        assert(fresh_names.deep_view() =~= fresh0.push(name@));
                                    }
                                },
                            }
                        }
                        env.insert(name.clone(), v);
                        i = i + 1;
                    },
                    _ => {
                        last = match eval(item, env, step_count) {
                            Ok(v) => v,
                            Err(err) => return Err(err),
                        };
                        i = i + 1;
                    },
                }
            }
            let ghost env_mid = env@;
            let ghost fresh_all = fresh_names.deep_view();
            proof {
                assert(fresh_all.skip(0) =~= fresh_all);
            }
            let mut k: usize = 0;
            while k < fresh_names.len()
                invariant
                    k <= fresh_names@.len(),
                    remove_all(env@, fresh_all.skip(k as int)) == remove_all(env_mid, fresh_all),
                decreases fresh_names@.len() - k,
            {
                proof {
                    assert(fresh_all.skip(k as int).drop_first() =~= fresh_all.skip(
                        k as int + 1,
                    ));
                    assert(fresh_all.skip(k as int)[0] == fresh_names@[k as int]@);
                }
                env.remove(&fresh_names[k]);
                k = k + 1;
            }
            let ghost env_removed = env@;
            let ghost saved_all = entries_model(saved@);
            proof {
                lemma_entries_model(saved@);
                assert(saved_all.skip(0) =~= saved_all);
            }
            let mut k2: usize = 0;
            while k2 < saved.len()
                invariant
                    k2 <= saved@.len(),
                    reinstate_all(env@, saved_all.skip(k2 as int)) == reinstate_all(
                        env_removed,
                        saved_all,
                    ),
                decreases saved@.len() - k2,
            {
                proof {
                    lemma_entries_model(saved@);
                    assert(saved_all.skip(k2 as int).drop_first() =~= saved_all.skip(
                        k2 as int + 1,
                    ));
                    assert(saved_all.skip(k2 as int)[0] == (
                        saved@[k2 as int].0@,
                        value_model(saved@[k2 as int].1),
                    ));
                }
                env.insert(saved[k2].0.clone(), saved[k2].1.clone());
                k2 = k2 + 1;
            }
            Ok(last)
        },
    }
}

/// How much of an evaluation a front end wants reported: nothing, the
/// last top-level expression, or every expression.
#[derive(Debug, PartialEq, Eq, Structural, Clone, Copy)]
pub enum TraceMode {
    Off,
    Last,
    All,
}

/// A whole program, as a mathematical function.  A top-level `Sequence`
/// is special: its `Define`s persist in the environment instead of being
/// scoped to the sequence, and the value of the last element — even a
/// `Define` — is the program's value (`Unit` for an empty program).
pub open spec fn spec_eval_document(e: SpecExpr, env: SpecEnv, steps: nat) -> SpecOutcome {
    match e {
        SpecExpr::Sequence(items) => spec_eval_document_seq(
            items,
            0,
            env,
            steps,
            SpecValue::Unit,
        ),
        _ => spec_eval(e, env, steps),
    }
}

/// The walk over a top-level sequence: no scoping, no restoration.
pub open spec fn spec_eval_document_seq(
    items: Seq<SpecExpr>,
    i: int,
    env: SpecEnv,
    steps: nat,
    last: SpecValue,
) -> SpecOutcome
    decreases fuel_left(steps), items, items.len() - i,
{
    if i < 0 || i >= items.len() {
        SpecOutcome { result: Ok(last), env, steps }
    } else {
        let r = spec_eval(items[i], env, steps);
        match r.result {
            Err(err) => SpecOutcome { result: Err(err), env: r.env, steps: r.steps },
            Ok(v) => spec_eval_document_seq(items, i + 1, r.env, nat_max(steps, r.steps), v),
        }
    }
}

/// Evaluate a whole program.  Unlike `eval`, a top-level `Sequence` lets
/// its `Define`s persist in `env` for a front end to inspect afterwards.
#[verifier::loop_isolation(false)]
pub fn eval_document(expr: &Expr, env: &mut Env, step_count: &mut u64) -> (r: Result<
    Value,
    EvalError,
>)
    requires
        *old(step_count) <= STEP_CEILING,
    ensures
        ({
            let o = spec_eval_document(expr@, old(env)@, *old(step_count) as nat);
            &&& final(env)@ == o.env
            &&& *final(step_count) as nat == o.steps
            &&& match r {
                Ok(v) => o.result == Ok::<SpecValue, SpecEvalError>(v@),
                Err(err) => o.result == Err::<SpecValue, SpecEvalError>(err@),
            }
        }),
        *final(step_count) >= *old(step_count),
        *final(step_count) <= STEP_CEILING + 1,
        r is Ok ==> *final(step_count) <= STEP_CEILING,
{
    match expr {
        Expr::Sequence(items) => {
            let ghost itemsv = crate::ast::exprs_model(items@);
            let ghost target = spec_eval_document_seq(
                itemsv,
                0,
                old(env)@,
                *old(step_count) as nat,
                SpecValue::Unit,
            );
            proof {
                crate::ast::lemma_exprs_model(items@);
            }
            let mut last = Value::Unit;
            let mut i: usize = 0;
            while i < items.len()
                invariant
                    i <= items@.len(),
                    *step_count <= STEP_CEILING,
                    *step_count >= *old(step_count),
                    spec_eval_document_seq(
                        itemsv,
                        i as int,
                        env@,
                        *step_count as nat,
                        last@,
                    ) == target,
                decreases items@.len() - i,
            {
                last = match eval(&items[i], env, step_count) {
                    Ok(v) => v,
                    Err(err) => return Err(err),
                };
                i = i + 1;
            }
            Ok(last)
        },
        _ => eval(expr, env, step_count),
    }
}

} // verus!
