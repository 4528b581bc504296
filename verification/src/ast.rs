use vstd::prelude::*;

verus! {

/// An expression of the untyped lambda calculus.
///
/// - `Var(name)`: a reference to a bound or free identifier.
/// - `Lambda(params, body)`: a curried function over one or more parameters.
/// - `Apply(func, arg)`: application of one expression to one argument.
/// - `Define(name, rhs)`: binds `name` to the evaluated `rhs`.
/// - `Sequence(items)`: items evaluated left to right; bindings made by
///   `Define` items are local to the sequence.
#[derive(Debug, PartialEq, Eq, Hash)]
pub enum Expr {
    Var(String),
    Lambda(Vec<String>, Box<Expr>),
    Apply(Box<Expr>, Box<Expr>),
    Define(String, Box<Expr>),
    Sequence(Vec<Expr>),
}

/// The mathematical model of an expression: identifiers are character
/// sequences, parameter lists and sequence bodies are `Seq`s.
#[verifier::ext_equal]
pub enum SpecExpr {
    Var(Seq<char>),
    Lambda(Seq<Seq<char>>, Box<SpecExpr>),
    Apply(Box<SpecExpr>, Box<SpecExpr>),
    Define(Seq<char>, Box<SpecExpr>),
    Sequence(Seq<SpecExpr>),
}

/// The model of an expression tree.
pub open spec fn expr_model(e: Expr) -> SpecExpr
    decreases e,
{
    match e {
        Expr::Var(name) => SpecExpr::Var(name@),
        Expr::Lambda(params, body) => SpecExpr::Lambda(
            params.deep_view(),
            Box::new(expr_model(*body)),
        ),
        Expr::Apply(func, arg) => SpecExpr::Apply(
            Box::new(expr_model(*func)),
            Box::new(expr_model(*arg)),
        ),
        Expr::Define(name, rhs) => SpecExpr::Define(name@, Box::new(expr_model(*rhs))),
        Expr::Sequence(items) => SpecExpr::Sequence(exprs_model(items@)),
    }
}

/// The models of a list of expressions, in order.
pub open spec fn exprs_model(items: Seq<Expr>) -> Seq<SpecExpr>
    decreases items,
{
    if items.len() == 0 {
        Seq::empty()
    } else {
        seq![expr_model(items[0])] + exprs_model(items.drop_first())
    }
}

/// `exprs_model` maps the list elementwise.
pub broadcast proof fn lemma_exprs_model(items: Seq<Expr>)
    ensures
        (#[trigger] exprs_model(items)).len() == items.len(),
        forall|i: int| 0 <= i < items.len() ==> exprs_model(items)[i] == expr_model(items[i]),
    decreases items,
{
    if items.len() > 0 {
        lemma_exprs_model(items.drop_first());
    }
}

impl View for Expr {
    type V = SpecExpr;

    open spec fn view(&self) -> SpecExpr {
        expr_model(*self)
    }
}

impl Clone for Expr {
    /// Cloning preserves the model.
    #[verifier::loop_isolation(false)]
    fn clone(&self) -> (res: Self)
        ensures
            res@ == self@,
        decreases self,
    {
        match self {
            Expr::Var(name) => Expr::Var(name.clone()),
            Expr::Lambda(params, body) => {
                let ps = params.clone();
                proof {
                    assert(ps.deep_view() =~= params.deep_view());
                }
                Expr::Lambda(ps, Box::new((**body).clone()))
            },
            Expr::Apply(func, arg) => Expr::Apply(
                Box::new((**func).clone()),
                Box::new((**arg).clone()),
            ),
            Expr::Define(name, rhs) => Expr::Define(name.clone(), Box::new((**rhs).clone())),
            Expr::Sequence(items) => {
                let mut out: Vec<Expr> = Vec::new();
                let mut i: usize = 0;
                while i < items.len()
                    invariant
                        i <= items@.len(),
                        out@.len() == i as int,
                        forall|j: int| 0 <= j < i ==> out@[j]@ == items@[j]@,
                    decreases items@.len() - i,
                {
                    out.push(items[i].clone());
                    i = i + 1;
                }
                proof {
                    lemma_exprs_model(out@);
                    lemma_exprs_model(items@);
                    assert(exprs_model(out@) =~= exprs_model(items@));
                }
                Expr::Sequence(out)
            },
        }
    }
}

/// `x` occurs free in `e`: some occurrence of `Var(x)` in `e` is not inside
/// a lambda that lists `x` among its parameters.  A `Define` does not bind
/// its name for the purposes of substitution.
pub open spec fn free_in(e: SpecExpr, x: Seq<char>) -> bool
    decreases e,
{
    match e {
        SpecExpr::Var(name) => name == x,
        SpecExpr::Lambda(params, body) => !params.contains(x) && free_in(*body, x),
        SpecExpr::Apply(func, arg) => free_in(*func, x) || free_in(*arg, x),
        SpecExpr::Define(_name, rhs) => free_in(*rhs, x),
        SpecExpr::Sequence(items) => free_in_list(items, x),
    }
}

/// `x` occurs free in some element of `items`.
pub open spec fn free_in_list(items: Seq<SpecExpr>, x: Seq<char>) -> bool
    decreases items,
{
    if items.len() == 0 {
        false
    } else {
        free_in(items[0], x) || free_in_list(items.drop_first(), x)
    }
}

/// `free_in_list` holds exactly when some element has `x` free.
pub broadcast proof fn lemma_free_in_list(items: Seq<SpecExpr>, x: Seq<char>)
    ensures
        #[trigger] free_in_list(items, x) <==> exists|i: int|
            0 <= i < items.len() && free_in(#[trigger] items[i], x),
    decreases items,
{
    if items.len() > 0 {
        lemma_free_in_list(items.drop_first(), x);
        if free_in(items[0], x) {
            assert(free_in(items[0], x));
        }
        if free_in_list(items.drop_first(), x) {
            let j = choose|j: int|
                0 <= j < items.drop_first().len() && free_in(
                    #[trigger] items.drop_first()[j],
                    x,
                );
            assert(items.drop_first()[j] == items[j + 1]);
        }
        if exists|i: int| 0 <= i < items.len() && free_in(#[trigger] items[i], x) {
            let j = choose|j: int| 0 <= j < items.len() && free_in(#[trigger] items[j], x);
            if j > 0 {
                assert(items.drop_first()[j - 1] == items[j]);
                assert(free_in(items.drop_first()[j - 1], x));
            }
        }
    }
}

} // verus!
