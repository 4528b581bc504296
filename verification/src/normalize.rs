use vstd::prelude::*;
use vstd::string::StrSliceExecFns;
use vstd::string::StringExecFns;

use crate::ast::Expr;
use crate::ast::SpecExpr;
use crate::ast::exprs_model;
use crate::ast::lemma_exprs_model;
use crate::subst::spec_digits;

verus! {

/// The rename in force for `name`, if any: the first entry wins.
pub open spec fn nm_lookup(m: Seq<(Seq<char>, Seq<char>)>, name: Seq<char>) -> Option<Seq<char>>
    decreases m,
{
    if m.len() == 0 {
        None
    } else if m[0].0 == name {
        Some(m[0].1)
    } else {
        nm_lookup(m.drop_first(), name)
    }
}

/// `m` with `name` now renamed to `to`: the first entry for `name` is
/// overwritten in place, or a new entry appended.
pub open spec fn nm_insert(m: Seq<(Seq<char>, Seq<char>)>, name: Seq<char>, to: Seq<char>) -> Seq<
    (Seq<char>, Seq<char>),
>
    decreases m,
{
    if m.len() == 0 {
        seq![(name, to)]
    } else if m[0].0 == name {
        seq![(name, to)] + m.drop_first()
    } else {
        seq![m[0]] + nm_insert(m.drop_first(), name, to)
    }
}

/// If the first entry for `name` stands at index `i`, lookup returns it.
proof fn lemma_nm_lookup_found(m: Seq<(Seq<char>, Seq<char>)>, name: Seq<char>, i: int)
    requires
        0 <= i < m.len(),
        m[i].0 == name,
        forall|j: int| 0 <= j < i ==> m[j].0 != name,
    ensures
        nm_lookup(m, name) == Some(m[i].1),
    decreases i,
{
    if i > 0 {
        lemma_nm_lookup_found(m.drop_first(), name, i - 1);
    }
}

/// If no entry carries `name`, lookup fails.
proof fn lemma_nm_lookup_absent(m: Seq<(Seq<char>, Seq<char>)>, name: Seq<char>)
    requires
        forall|j: int| 0 <= j < m.len() ==> m[j].0 != name,
    ensures
        nm_lookup(m, name) is None,
    decreases m,
{
    if m.len() > 0 {
        lemma_nm_lookup_absent(m.drop_first(), name);
    }
}

/// If the first entry for `name` stands at index `i`, insertion
/// overwrites it in place.
proof fn lemma_nm_insert_found(
    m: Seq<(Seq<char>, Seq<char>)>,
    name: Seq<char>,
    to: Seq<char>,
    i: int,
)
    requires
        0 <= i < m.len(),
        m[i].0 == name,
        forall|j: int| 0 <= j < i ==> m[j].0 != name,
    ensures
        nm_insert(m, name, to) == m.update(i, (name, to)),
    decreases i,
{
    if i == 0 {
        assert(nm_insert(m, name, to) =~= m.update(0, (name, to)));
    } else {
        lemma_nm_insert_found(m.drop_first(), name, to, i - 1);
        assert(nm_insert(m, name, to) =~= m.update(i, (name, to)));
    }
}

/// If no entry carries `name`, insertion appends.
proof fn lemma_nm_insert_absent(m: Seq<(Seq<char>, Seq<char>)>, name: Seq<char>, to: Seq<char>)
    requires
        forall|j: int| 0 <= j < m.len() ==> m[j].0 != name,
    ensures
        nm_insert(m, name, to) == m.push((name, to)),
    decreases m,
{
    if m.len() == 0 {
        assert(nm_insert(m, name, to) =~= m.push((name, to)));
    } else {
        lemma_nm_insert_absent(m.drop_first(), name, to);
        assert(nm_insert(m, name, to) =~= m.push((name, to)));
    }
}

/// Alpha-normalization: every bound variable is renamed to `v0`, `v1`,
/// ... in binding order, so two expressions that differ only in their
/// choice of bound names normalize to the same tree.  `m` carries the
/// renames in force; a lambda's renames are scoped to its own body, and
/// an enclosing rename shadowed by a parameter comes back into force
/// after that lambda.
pub open spec fn spec_normalize(e: SpecExpr, m: Seq<(Seq<char>, Seq<char>)>, ctr: nat) -> (
    SpecExpr,
    nat,
)
    decreases e, 0int,
{
    match e {
        SpecExpr::Var(name) => (
            SpecExpr::Var(
                match nm_lookup(m, name) {
                    Some(n2) => n2,
                    None => name,
                },
            ),
            ctr,
        ),
        SpecExpr::Lambda(params, body) => {
            let r = spec_norm_params(params, m, ctr);
            let rb = spec_normalize(*body, r.1, r.2);
            (SpecExpr::Lambda(r.0, Box::new(rb.0)), rb.1)
        },
        SpecExpr::Apply(func, arg) => {
            let rf = spec_normalize(*func, m, ctr);
            let ra = spec_normalize(*arg, m, rf.1);
            (SpecExpr::Apply(Box::new(rf.0), Box::new(ra.0)), ra.1)
        },
        SpecExpr::Define(name, rhs) => {
            let rr = spec_normalize(*rhs, m, ctr);
            (SpecExpr::Define(name, Box::new(rr.0)), rr.1)
        },
        SpecExpr::Sequence(items) => {
            let rl = spec_normalize_list(items, m, ctr);
            (SpecExpr::Sequence(rl.0), rl.1)
        },
    }
}

/// Rename each parameter to the next `v{ctr}`, recording the renames.
pub open spec fn spec_norm_params(params: Seq<Seq<char>>, m: Seq<(Seq<char>, Seq<char>)>, ctr: nat)
    -> (Seq<Seq<char>>, Seq<(Seq<char>, Seq<char>)>, nat)
    decreases params,
{
    if params.len() == 0 {
        (params, m, ctr)
    } else {
        let fresh = seq!['v'] + spec_digits(ctr);
        let r = spec_norm_params(params.drop_first(), nm_insert(m, params[0], fresh), ctr + 1);
        (seq![fresh] + r.0, r.1, r.2)
    }
}

/// `spec_normalize` over a list, threading the counter left to right.
pub open spec fn spec_normalize_list(
    items: Seq<SpecExpr>,
    m: Seq<(Seq<char>, Seq<char>)>,
    ctr: nat,
) -> (Seq<SpecExpr>, nat)
    decreases items, 1int,
{
    if items.len() == 0 {
        (items, ctr)
    } else {
        let r0 = spec_normalize(items[0], m, ctr);
        let rr = spec_normalize_list(items.drop_first(), m, r0.1);
        (seq![r0.0] + rr.0, rr.1)
    }
}

/// The rename in force for `name`, if any.
#[verifier::loop_isolation(false)]
fn nm_get(m: &Vec<(String, String)>, name: &String) -> (r: Option<String>)
    ensures
        match r {
            Some(to) => nm_lookup(m.deep_view(), name@) == Some(to@),
            None => nm_lookup(m.deep_view(), name@) is None,
        },
{
    let mut i: usize = 0;
    while i < m.len()
        invariant
            i <= m@.len(),
            forall|j: int| 0 <= j < i ==> m.deep_view()[j].0 != name@,
        decreases m@.len() - i,
    {
        if m[i].0 == *name {
            proof {
                lemma_nm_lookup_found(m.deep_view(), name@, i as int);
            }
            return Some(m[i].1.clone());
        }
        i = i + 1;
    }
    proof {
        lemma_nm_lookup_absent(m.deep_view(), name@);
    }
    None
}

/// Put the rename `name -> to` in force.
#[verifier::loop_isolation(false)]
fn nm_put(m: &mut Vec<(String, String)>, name: String, to: String)
    ensures
        final(m).deep_view() == nm_insert(old(m).deep_view(), name@, to@),
{
    let mut i: usize = 0;
    while i < m.len()
        invariant
            i <= m@.len(),
            m == old(m),
            forall|j: int| 0 <= j < i ==> m.deep_view()[j].0 != name@,
        decreases m@.len() - i,
    {
        if m[i].0 == name {
            proof {
                lemma_nm_insert_found(m.deep_view(), name@, to@, i as int);
            }
            m[i] = (name, to);
            proof {
                assert(m.deep_view() =~= nm_insert(old(m).deep_view(), name@, to@));
            }
            return ;
        }
        i = i + 1;
    }
    proof {
        lemma_nm_insert_absent(m.deep_view(), name@, to@);
    }
    m.push((name, to));
    proof {
        assert(m.deep_view() =~= nm_insert(old(m).deep_view(), name@, to@));
    }
}

/// The canonical name for the `id`-th binder.
fn norm_name(id: u64) -> (r: String)
    ensures
        r@ == seq!['v'] + spec_digits(id as nat),
{
    let mut s = ("v").to_owned();
    crate::subst::append_digits(&mut s, id);
    proof {
        reveal_strlit("v");
        assert(s@ =~= seq!['v'] + spec_digits(id as nat));
    }
    s
}

/// Normalize `expr` under the renames `m`, drawing canonical names from
/// `counter`.
#[verifier::loop_isolation(false)]
fn normalize_rec(expr: &Expr, m: &Vec<(String, String)>, counter: &mut u64) -> (r: Expr)
    requires
        *old(counter) as nat + crate::subst::expr_size(expr@) <= u64::MAX,
    ensures
        ({
            let n = spec_normalize(expr@, m.deep_view(), *old(counter) as nat);
            r@ == n.0 && *final(counter) as nat == n.1
        }),
        *final(counter) >= *old(counter),
    decreases expr, 0int, 0int,
{
    match expr {
        Expr::Var(name) => {
            match nm_get(m, name) {
                Some(to) => Expr::Var(to),
                None => Expr::Var(name.clone()),
            }
        },
        Expr::Lambda(params, body) => {
            let ghost paramsv = params.deep_view();
            let ghost m0 = m.deep_view();
            let ghost ctr0 = *counter as nat;
            let ghost target = spec_norm_params(paramsv, m0, ctr0);
            let mut new_params: Vec<String> = Vec::new();
            let mut m2 = clone_renames(m);
            proof {
                lemma_norm_params_ctr(paramsv, m0, ctr0);
                assert(paramsv.skip(0) =~= paramsv);
                assert(target.0.take(0) =~= Seq::<Seq<char>>::empty());
            }
            let mut i: usize = 0;
            while i < params.len()
                invariant
                    i <= params@.len(),
                    new_params@.len() == i as int,
                    *counter as nat == ctr0 + i,
                    spec_norm_params(paramsv.skip(i as int), m2.deep_view(), *counter as nat)
                        == (target.0.skip(i as int), target.1, target.2),
                    target.0.len() == paramsv.len(),
                    new_params.deep_view() =~= target.0.take(i as int),
                decreases params@.len() - i,
            {
                proof {
                    assert(paramsv.skip(i as int)[0] == paramsv[i as int]);
                    assert(paramsv.skip(i as int).drop_first() =~= paramsv.skip(i as int + 1));
                }
                let ghost np0 = new_params.deep_view();
                let fresh = norm_name(*counter);
                let ghost freshv = fresh@;
                nm_put(&mut m2, params[i].clone(), fresh.clone());
                *counter = *counter + 1;
                new_params.push(fresh);
                i = i + 1;
                proof {
                    assert(target.0.skip(i - 1)[0] == target.0[i - 1]);
                    assert(freshv == target.0[i - 1]);
                    assert(target.0.skip(i - 1).drop_first() =~= target.0.skip(i as int));
                    assert(new_params.deep_view() =~= np0.push(freshv));
                    assert(new_params.deep_view() =~= target.0.take(i as int));
                }
            }
            proof {
                assert(paramsv.skip(i as int).len() == 0);
                assert(target.0.take(i as int) =~= target.0);
                assert(m2.deep_view() == target.1 && *counter as nat == target.2);
                lemma_norm_params_ctr(paramsv, m0, ctr0);
                lemma_normalize_ctr((&**body)@, target.1, target.2);
            }
            let nb = normalize_rec(&**body, &m2, counter);
            Expr::Lambda(new_params, Box::new(nb))
        },
        Expr::Apply(func, arg) => {
            proof {
                lemma_normalize_ctr((&**func)@, m.deep_view(), *counter as nat);
            }
            let nf = normalize_rec(&**func, m, counter);
            let na = normalize_rec(&**arg, m, counter);
            Expr::Apply(Box::new(nf), Box::new(na))
        },
        Expr::Define(name, rhs) => {
            Expr::Define(name.clone(), Box::new(normalize_rec(&**rhs, m, counter)))
        },
        Expr::Sequence(items) => {
            let ghost itemsv = exprs_model(items@);
            let ghost m0 = m.deep_view();
            let ghost ctr0 = *counter as nat;
            let ghost target = spec_normalize_list(itemsv, m0, ctr0);
            proof {
                lemma_exprs_model(items@);
                assert(itemsv.skip(0) =~= itemsv);
            }
            let mut out: Vec<Expr> = Vec::new();
            let mut i: usize = 0;
            while i < items.len()
                invariant
                    i <= items@.len(),
                    out@.len() == i as int,
                    *counter >= *old(counter),
                    *counter as nat + crate::subst::exprs_size(itemsv.skip(i as int)) <= ctr0
                        + crate::subst::exprs_size(itemsv),
                    spec_normalize_list(itemsv.skip(i as int), m0, *counter as nat).1
                        == target.1,
                    target.0 == exprs_model(out@) + spec_normalize_list(
                        itemsv.skip(i as int),
                        m0,
                        *counter as nat,
                    ).0,
                decreases items@.len() - i,
            {
                let ghost outv0 = out@;
                proof {
                    assert(itemsv.skip(i as int)[0] == itemsv[i as int]);
                    assert(itemsv.skip(i as int).drop_first() =~= itemsv.skip(i as int + 1));
                    crate::subst::lemma_exprs_size_elem(itemsv, i as int);
                    crate::subst::lemma_expr_size_pos(itemsv[i as int]);
                    lemma_normalize_ctr(itemsv[i as int], m0, *counter as nat);
                }
                let e2 = normalize_rec(&items[i], m, counter);
                out.push(e2);
                i = i + 1;
                proof {
                    lemma_exprs_model(outv0);
                    lemma_exprs_model(out@);
                    assert(exprs_model(out@) =~= exprs_model(outv0).push(
                        exprs_model(out@)[i - 1],
                    ));
                    assert(exprs_model(outv0) + (seq![exprs_model(out@)[i - 1]]
                        + spec_normalize_list(
                        itemsv.skip(i as int),
                        m0,
                        *counter as nat,
                    ).0) =~= exprs_model(out@) + spec_normalize_list(
                        itemsv.skip(i as int),
                        m0,
                        *counter as nat,
                    ).0);
                }
            }
            proof {
                assert(itemsv.skip(i as int).len() == 0);
                assert(target.0 =~= exprs_model(out@));
            }
            Expr::Sequence(out)
        },
    }
}

/// A copy of the rename table.
#[verifier::loop_isolation(false)]
fn clone_renames(m: &Vec<(String, String)>) -> (r: Vec<(String, String)>)
    ensures
        r.deep_view() == m.deep_view(),
{
    let mut out: Vec<(String, String)> = Vec::new();
    let mut i: usize = 0;
    while i < m.len()
        invariant
            i <= m@.len(),
            out@.len() == i as int,
            forall|j: int| #![all_triggers]
                0 <= j < i ==> out@[j].0@ == m@[j].0@ && out@[j].1@ == m@[j].1@,
        decreases m@.len() - i,
    {
        let name = m[i].0.clone();
        let to = m[i].1.clone();
        out.push((name, to));
        i = i + 1;
    }
    proof {
        assert(out.deep_view() =~= m.deep_view());
    }
    out
}

/// The parameter walk advances the counter by exactly one per parameter.
proof fn lemma_norm_params_ctr(params: Seq<Seq<char>>, m: Seq<(Seq<char>, Seq<char>)>, ctr: nat)
    ensures
        spec_norm_params(params, m, ctr).2 == ctr + params.len(),
        spec_norm_params(params, m, ctr).0.len() == params.len(),
    decreases params,
{
    if params.len() > 0 {
        let fresh = seq!['v'] + spec_digits(ctr);
        lemma_norm_params_ctr(params.drop_first(), nm_insert(m, params[0], fresh), ctr + 1);
    }
}

/// Normalization advances the counter by at most the expression's size.
proof fn lemma_normalize_ctr(e: SpecExpr, m: Seq<(Seq<char>, Seq<char>)>, ctr: nat)
    ensures
        ctr <= spec_normalize(e, m, ctr).1 <= ctr + crate::subst::expr_size(e),
    decreases e, 0int,
{
    match e {
        SpecExpr::Lambda(params, body) => {
            lemma_norm_params_ctr(params, m, ctr);
            let r = spec_norm_params(params, m, ctr);
            lemma_normalize_ctr(*body, r.1, r.2);
        },
        SpecExpr::Apply(func, arg) => {
            let rf = spec_normalize(*func, m, ctr);
            lemma_normalize_ctr(*func, m, ctr);
            lemma_normalize_ctr(*arg, m, rf.1);
        },
        SpecExpr::Define(_name, rhs) => {
            lemma_normalize_ctr(*rhs, m, ctr);
        },
        SpecExpr::Sequence(items) => {
            lemma_normalize_list_ctr(items, m, ctr);
        },
        _ => {},
    }
}

/// As `lemma_normalize_ctr`, for a list of expressions.
proof fn lemma_normalize_list_ctr(items: Seq<SpecExpr>, m: Seq<(Seq<char>, Seq<char>)>, ctr: nat)
    ensures
        ctr <= spec_normalize_list(items, m, ctr).1 <= ctr + crate::subst::exprs_size(items),
    decreases items, 1int,
{
    if items.len() > 0 {
        let r0 = spec_normalize(items[0], m, ctr);
        lemma_normalize_ctr(items[0], m, ctr);
        lemma_normalize_list_ctr(items.drop_first(), m, r0.1);
    }
}

/// Alpha-normalize `expr`: rename every bound variable to `v0`, `v1`, ...
/// in binding order.  Two expressions that differ only in bound names
/// yield the same tree, so normalized trees compare alpha-equivalence.
pub fn normalize(expr: &Expr) -> (r: Expr)
    requires
        crate::subst::expr_size(expr@) <= u64::MAX,
    ensures
        r@ == spec_normalize(expr@, Seq::empty(), 0).0,
{
    let m: Vec<(String, String)> = Vec::new();
    let mut counter: u64 = 0;
    proof {
        assert(m.deep_view() =~= Seq::<(Seq<char>, Seq<char>)>::empty());
    }
    normalize_rec(expr, &m, &mut counter)
}

} // verus!
