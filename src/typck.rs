use vstd::prelude::*;

use crate::ast::Expression;
use crate::ctx::{
    all_unbound, bind_cells, cells_wf, extends, fresh_cells, lemma_all_unbound_below,
    lemma_all_unbound_extend, lemma_extends_refl, lemma_extends_trans, lemma_lookup_in,
    lemma_resolve_all_unbound, lemma_resolve_unbound, lemma_syms_below_mono, lookup, resolve,
    unbound_count, TypeContext,
};
use crate::typ::{fresh_for, last_index, lemma_last_index, MonoType, PolyType, VarType};

verus! {

/// Why inference failed.
#[derive(Debug, PartialEq, Eq)]
pub enum TypeError {
    /// The occurs check fired: a variable would be bound to a type holding it.
    RecursiveType,
    /// Unification met two types of different shape.
    TypeMismatch(MonoType, MonoType),
    /// A name was used outside any binding of it.
    VarNotFound(String),
}

/// Unification over the cells `s`: both sides are resolved; an unbound
/// variable is bound to the other side unless that side holds it (the occurs
/// check); two arrows unify argument with argument, then result with result;
/// `Bool` meets `Bool`; any other pair is a mismatch. (The guards on the
/// arrow case hold whenever the cells are well formed.)
pub open spec fn unify_spec(s: Seq<VarType>, t0: MonoType, t1: MonoType) -> (Seq<VarType>, Result<(), TypeError>)
    decreases unbound_count(s), resolve(s, t0).size() + resolve(s, t1).size(),
{
    let a = resolve(s, t0);
    let b = resolve(s, t1);
    match a {
        MonoType::Var { tvar: i } => if b == a {
            (s, Ok(()))
        } else if b.mentions(i) {
            (s, Err(TypeError::RecursiveType))
        } else {
            (bind_cells(s, i, b), Ok(()))
        },
        _ => match b {
            MonoType::Var { tvar: j } => if a.mentions(j) {
                (s, Err(TypeError::RecursiveType))
            } else {
                (bind_cells(s, j, a), Ok(()))
            },
            MonoType::Bool => if a is Bool {
                (s, Ok(()))
            } else {
                (s, Err(TypeError::TypeMismatch(a, b)))
            },
            MonoType::Func { l: l1, r: r1 } => match a {
                MonoType::Func { l: l0, r: r0 } => if resolve(s, *l0) == *l0 && resolve(s, *l1)
                    == *l1 && resolve(s, *r0) == *r0 && resolve(s, *r1) == *r1 {
                    let (s1, res) = unify_spec(s, *l0, *l1);
                    if res is Err {
                        (s1, res)
                    } else if s1 == s || unbound_count(s1) < unbound_count(s) {
                        unify_spec(s1, *r0, *r1)
                    } else {
                        (s1, res)
                    }
                } else {
                    (s, Ok(()))
                },
                _ => (s, Err(TypeError::TypeMismatch(a, b))),
            },
        },
    }
}

/// Algorithm J over the cells `s` and the symbol stack `env`: the cells
/// after inferring `e`, and its type or the first error met.
pub open spec fn infer_spec(
    s: Seq<VarType>,
    env: Seq<(Seq<char>, (Seq<usize>, MonoType))>,
    e: Expression,
) -> (Seq<VarType>, Result<MonoType, TypeError>)
    decreases e,
{
    match e {
        Expression::Var { name } => match lookup(env, name@) {
            None => (s, Err(TypeError::VarNotFound(name))),
            Some(p) => (
                s + fresh_cells(s.len(), p.0.len()),
                Ok(resolve(s, p.1).rename(p.0, s.len())),
            ),
        },
        Expression::App { e0, e1 } => {
            let (s1, r0) = infer_spec(s, env, *e0);
            if r0 is Err {
                (s1, r0)
            } else {
                let (s2, r1) = infer_spec(s1, env, *e1);
                if r1 is Err {
                    (s2, r1)
                } else {
                    let v = MonoType::Var { tvar: s2.len() as usize };
                    let s3 = s2.push(VarType::Unbound { id: s2.len() as usize });
                    let f = MonoType::Func { l: Box::new(r1->Ok_0), r: Box::new(v) };
                    let (s4, u) = unify_spec(s3, r0->Ok_0, f);
                    match u {
                        Ok(_) => (s4, Ok(resolve(s4, v))),
                        Err(x) => (s4, Err(x)),
                    }
                }
            }
        },
        Expression::Abs { name, e } => {
            let v = MonoType::Var { tvar: s.len() as usize };
            let s1 = s.push(VarType::Unbound { id: s.len() as usize });
            let (s2, r) = infer_spec(s1, env.push((name@, (Seq::empty(), v))), *e);
            match r {
                Ok(t1) => (s2, Ok(resolve(s2, MonoType::Func { l: Box::new(v), r: Box::new(t1) }))),
                Err(x) => (s2, Err(x)),
            }
        },
        Expression::Let { name, e0, e1 } => {
            let (s1, r0) = infer_spec(s, env, *e0);
            if r0 is Err {
                (s1, r0)
            } else {
                let g = resolve(s1, r0->Ok_0);
                infer_spec(s1, env.push((name@, (g.var_list(), g))), *e1)
            }
        },
        Expression::True | Expression::False => (s, Ok(MonoType::Bool)),
    }
}

/// Whether the variable `id` occurs in `t`, following bound variables.
pub fn occurs(ctx: &TypeContext, id: usize, t: &MonoType) -> (r: bool)
    ensures
        r == resolve(ctx.cells(), *t).mentions(id),
{
    ctx.resolve(t).contains_var(id)
}

/// Unifies `t0` and `t1` by binding variables of the context.
pub fn unify(ctx: &mut TypeContext, t0: &MonoType, t1: &MonoType) -> (r: Result<(), TypeError>)
    requires
        old(ctx).wf(),
        t0.vars_below(old(ctx).cells().len()),
        t1.vars_below(old(ctx).cells().len()),
    ensures
        final(ctx).wf(),
        final(ctx).symbols() == old(ctx).symbols(),
        final(ctx).cells().len() == old(ctx).cells().len(),
        (final(ctx).cells(), r) == unify_spec(old(ctx).cells(), *t0, *t1),
        extends(final(ctx).cells(), old(ctx).cells()),
        final(ctx).cells() == old(ctx).cells() || unbound_count(final(ctx).cells()) < unbound_count(
            old(ctx).cells(),
        ),
        // on success both sides resolve to one type
        r is Ok ==> resolve(final(ctx).cells(), *t0) == resolve(final(ctx).cells(), *t1),
        // types that already agree are left alone
        resolve(old(ctx).cells(), *t0) == resolve(old(ctx).cells(), *t1) ==> r is Ok
            && final(ctx).cells() == old(ctx).cells(),
        ({
            let a = resolve(old(ctx).cells(), *t0);
            let b = resolve(old(ctx).cells(), *t1);
            &&& a matches MonoType::Var { tvar: i } ==> {
                if b.mentions(i) {
                    a != b ==> r == Err::<(), TypeError>(TypeError::RecursiveType) && final(ctx).cells()
                        == old(ctx).cells()
                } else {
                    r is Ok && final(ctx).cells() == bind_cells(old(ctx).cells(), i, b)
                }
            }
            &&& !(a is Var) ==> (b matches MonoType::Var { tvar: j } ==> {
                if a.mentions(j) {
                    r == Err::<(), TypeError>(TypeError::RecursiveType) && final(ctx).cells() == old(
                        ctx,
                    ).cells()
                } else {
                    r is Ok && final(ctx).cells() == bind_cells(old(ctx).cells(), j, a)
                }
            })
            &&& (a is Bool && b is Func) || (a is Func && b is Bool) ==> r == Err::<(), TypeError>(
                TypeError::TypeMismatch(a, b),
            ) && final(ctx).cells() == old(ctx).cells()
        }),
    decreases unbound_count(ctx.cells()),
        resolve(ctx.cells(), *t0).size() + resolve(ctx.cells(), *t1).size(),
{
    let ghost s0 = ctx.cells();
    let a = ctx.resolve(t0);
    let b = ctx.resolve(t1);
    proof {
        lemma_resolve_all_unbound(s0, *t0);
        lemma_resolve_all_unbound(s0, *t1);
        lemma_all_unbound_below(s0, a);
        lemma_all_unbound_below(s0, b);
        lemma_extends_refl(s0);
    }
    if let MonoType::Var { tvar: i } = a {
        if let MonoType::Var { tvar: j } = b {
            if i == j {
                return Ok(());
            }
        }
        if occurs(ctx, i, t1) {
            return Err(TypeError::RecursiveType);
        }
        ctx.bind(i, &b);
        proof {
            crate::ctx::lemma_bind_resolve(s0, i, b, *t0);
            crate::ctx::lemma_bind_resolve(s0, i, b, *t1);
            crate::ctx::lemma_subst_absent(b, i, b);
        }
        return Ok(());
    }
    if let MonoType::Var { tvar: j } = b {
        if occurs(ctx, j, t0) {
            return Err(TypeError::RecursiveType);
        }
        ctx.bind(j, &a);
        proof {
            crate::ctx::lemma_bind_resolve(s0, j, a, *t0);
            crate::ctx::lemma_bind_resolve(s0, j, a, *t1);
            crate::ctx::lemma_subst_absent(a, j, a);
        }
        return Ok(());
    }
    match (&a, &b) {
        (MonoType::Func { l: l0, r: r0 }, MonoType::Func { l: l1, r: r1 }) => {
            proof {
                lemma_resolve_unbound(s0, **l0);
                lemma_resolve_unbound(s0, **l1);
                lemma_resolve_unbound(s0, **r0);
                lemma_resolve_unbound(s0, **r1);
            }
            match unify(ctx, l0, l1) {
                Ok(()) => {},
                Err(e) => {
                    return Err(e);
                },
            }
            let ghost s1 = ctx.cells();
            let res = unify(ctx, r0, r1);
            proof {
                let s2 = ctx.cells();
                lemma_extends_trans(s0, s1, s2);
                if res is Ok {
                    lemma_resolve_all_unbound(s1, **l0);
                    assert(resolve(s2, resolve(s1, **l0)) == resolve(s2, **l0));
                    assert(resolve(s2, resolve(s1, **l1)) == resolve(s2, **l1));
                    assert(resolve(s2, resolve(s0, *t0)) == resolve(s2, *t0));
                    assert(resolve(s2, resolve(s0, *t1)) == resolve(s2, *t1));
                }
            }
            res
        },
        (MonoType::Bool, MonoType::Bool) => Ok(()),
        _ => Err(TypeError::TypeMismatch(a, b)),
    }
}

proof fn lemma_var_list_mentions(t: MonoType, k: usize)
    ensures
        t.mentions(k) <==> t.var_list().contains(k),
    decreases t,
{
    match t {
        MonoType::Func { l, r } => {
            lemma_var_list_mentions(*l, k);
            lemma_var_list_mentions(*r, k);
            let (a, b) = (l.var_list(), r.var_list());
            if a.contains(k) {
                let i = choose|i: int| 0 <= i < a.len() && a[i] == k;
                assert((a + b)[i] == k);
            }
            if b.contains(k) {
                let i = choose|i: int| 0 <= i < b.len() && b[i] == k;
                assert((a + b)[a.len() + i] == k);
            }
            if (a + b).contains(k) {
                let i = choose|i: int| 0 <= i < (a + b).len() && (a + b)[i] == k;
                if i < a.len() {
                    assert(a[i] == k);
                } else {
                    assert(b[i - a.len()] == k);
                }
            }
        },
        MonoType::Var { tvar } => {
            if tvar == k {
                assert(t.var_list()[0] == k);
            }
        },
        MonoType::Bool => {},
    }
}

/// A variable of a renamed type is the renaming of one of the type's own.
proof fn lemma_rename_mentions(t: MonoType, ids: Seq<usize>, base: nat, k: usize)
    requires
        t.rename(ids, base).mentions(k),
    ensures
        exists|j: usize|
            t.mentions(j) && if last_index(ids, j) >= 0 {
                k == fresh_for(ids, base, j)
            } else {
                k == j
            },
    decreases t,
{
    match t {
        MonoType::Func { l, r } => {
            let sub = if l.rename(ids, base).mentions(k) {
                *l
            } else {
                *r
            };
            lemma_rename_mentions(sub, ids, base, k);
            let j = choose|j: usize|
                sub.mentions(j) && if last_index(ids, j) >= 0 {
                    k == fresh_for(ids, base, j)
                } else {
                    k == j
                };
            assert(t.mentions(j));
        },
        MonoType::Var { tvar } => {
            assert(t.mentions(tvar));
        },
        MonoType::Bool => {},
    }
}

/// Renaming all the variables of `g` into fresh ones from `base` on.
proof fn lemma_rename_all_fresh(g: MonoType, base: nat)
    requires
        base + g.var_list().len() <= usize::MAX,
    ensures
        forall|k: usize|
            #[trigger] g.rename(g.var_list(), base).mentions(k) ==> base <= k < base + g.var_list().len(),
{
    let ids = g.var_list();
    assert forall|k: usize| #[trigger] g.rename(ids, base).mentions(k) implies base <= k < base
        + ids.len() by {
        lemma_rename_mentions(g, ids, base, k);
        let j = choose|j: usize|
            g.mentions(j) && if last_index(ids, j) >= 0 {
                k == fresh_for(ids, base, j)
            } else {
                k == j
            };
        lemma_var_list_mentions(g, j);
        lemma_last_index(ids, j);
    }
}

/// Instantiating the generalization of a type gives the type again with each
/// of its variables renamed to a fresh one: every variable is renamed, the
/// renaming is one-to-one (variables shared before are shared after, distinct
/// ones stay distinct), and its targets are the cells made by instantiation.
pub proof fn lemma_instantiate_generalize(vars: Seq<VarType>, t: MonoType)
    requires
        cells_wf(vars),
        t.vars_below(vars.len()),
        vars.len() + resolve(vars, t).var_list().len() <= usize::MAX,
    ensures
        ({
            let g = resolve(vars, t);
            let ids = g.var_list();
            let r = resolve(vars, g).rename(ids, vars.len());
            &&& r == g.rename(ids, vars.len())
            &&& forall|k: usize| #[trigger] g.mentions(k) ==> last_index(ids, k) >= 0
            &&& forall|k1: usize, k2: usize|
                g.mentions(k1) && g.mentions(k2) && #[trigger] fresh_for(ids, vars.len(), k1)
                    == #[trigger] fresh_for(ids, vars.len(), k2) ==> k1 == k2
            &&& forall|k: usize| #[trigger] r.mentions(k) ==> vars.len() <= k < vars.len() + ids.len()
        }),
{
    let g = resolve(vars, t);
    let ids = g.var_list();
    let base = vars.len();
    lemma_resolve_all_unbound(vars, t);
    assert forall|k: usize| #[trigger] g.mentions(k) implies last_index(ids, k) >= 0 by {
        lemma_var_list_mentions(g, k);
        lemma_last_index(ids, k);
    }
    assert forall|k1: usize, k2: usize|
        g.mentions(k1) && g.mentions(k2) && #[trigger] fresh_for(ids, base, k1) == #[trigger] fresh_for(
            ids,
            base,
            k2,
        ) implies k1 == k2 by {
        lemma_var_list_mentions(g, k1);
        lemma_var_list_mentions(g, k2);
        lemma_last_index(ids, k1);
        lemma_last_index(ids, k2);
    }
    lemma_rename_all_fresh(g, base);
}

/// Two instantiations of a generalized type, the second made after the
/// first's fresh cells, share no variable: each use of a let-bound name is
/// typed independently.
pub proof fn lemma_let_instances_independent(g: MonoType, base1: nat, base2: nat)
    requires
        base1 + g.var_list().len() <= base2,
        base2 + g.var_list().len() <= usize::MAX,
    ensures
        forall|k: usize|
            !(#[trigger] g.rename(g.var_list(), base1).mentions(k) && g.rename(
                g.var_list(),
                base2,
            ).mentions(k)),
{
    lemma_rename_all_fresh(g, base1);
    lemma_rename_all_fresh(g, base2);
}

/// Every use of a name bound by an abstraction instantiates its scheme, which
/// quantifies nothing, to what the parameter's variable resolves to at that
/// time; once later steps extend both states, the two uses resolve to one
/// type.
pub proof fn lemma_lambda_uses_shared(
    s1: Seq<VarType>,
    s2: Seq<VarType>,
    fin: Seq<VarType>,
    v: usize,
    base1: nat,
    base2: nat,
)
    requires
        extends(fin, s1),
        extends(fin, s2),
        v < s1.len(),
        v < s2.len(),
    ensures
        resolve(fin, resolve(s1, MonoType::Var { tvar: v }).rename(Seq::empty(), base1)) == resolve(
            fin,
            resolve(s2, MonoType::Var { tvar: v }).rename(Seq::empty(), base2),
        ),
{
    let x = MonoType::Var { tvar: v };
    lemma_rename_nothing(resolve(s1, x), base1);
    lemma_rename_nothing(resolve(s2, x), base2);
    assert(resolve(fin, resolve(s1, x)) == resolve(fin, x));
    assert(resolve(fin, resolve(s2, x)) == resolve(fin, x));
}

/// Bindings of other names above a binding do not hide it.
pub proof fn lemma_lookup_past(
    env: Seq<(Seq<char>, (Seq<usize>, MonoType))>,
    inner: Seq<(Seq<char>, (Seq<usize>, MonoType))>,
    n: Seq<char>,
)
    requires
        forall|k: int| 0 <= k < inner.len() ==> (#[trigger] inner[k]).0 != n,
    ensures
        lookup(env + inner, n) == lookup(env, n),
    decreases inner.len(),
{
    if inner.len() == 0 {
        assert(env + inner =~= env);
    } else {
        assert((env + inner).drop_last() =~= env + inner.drop_last());
        assert((env + inner).last() == inner[inner.len() - 1]);
        lemma_lookup_past(env, inner.drop_last(), n);
    }
}

/// A name bound by an abstraction is monomorphic: every use of it that no
/// inner binding of the same name hides (`inner` is what was bound since)
/// makes no fresh cell and is typed by the parameter's own variable `v`, as
/// resolved at that use; so all uses are unified with the one variable.
pub proof fn lemma_lambda_use(
    s: Seq<VarType>,
    env: Seq<(Seq<char>, (Seq<usize>, MonoType))>,
    inner: Seq<(Seq<char>, (Seq<usize>, MonoType))>,
    name: String,
    v: MonoType,
)
    requires
        forall|k: int| 0 <= k < inner.len() ==> (#[trigger] inner[k]).0 != name@,
    ensures
        infer_spec(s, env.push((name@, (Seq::empty(), v))) + inner, Expression::Var { name }) == (
            s,
            Ok::<MonoType, TypeError>(resolve(s, v)),
        ),
{
    let outer = env.push((name@, (Seq::<usize>::empty(), v)));
    lemma_lookup_past(outer, inner, name@);
    lemma_rename_nothing(resolve(s, v), s.len());
    assert(s + fresh_cells(s.len(), 0) =~= s);
}

/// A name bound by `let` is polymorphic: every use of it that no inner
/// binding of the same name hides makes fresh cells at the end of the cells,
/// one per quantified variable, and its type is the bound type resolved with
/// each quantified variable replaced by one of those cells. So every variable
/// of a use's type is fresh to that use or not quantified: uses share no
/// quantified variable with each other or with the bound expression.
pub proof fn lemma_let_use(
    s: Seq<VarType>,
    env: Seq<(Seq<char>, (Seq<usize>, MonoType))>,
    inner: Seq<(Seq<char>, (Seq<usize>, MonoType))>,
    name: String,
    g: MonoType,
)
    requires
        forall|k: int| 0 <= k < inner.len() ==> (#[trigger] inner[k]).0 != name@,
        s.len() + g.var_list().len() <= usize::MAX,
    ensures
        ({
            let ids = g.var_list();
            let (s2, r) = infer_spec(s, env.push((name@, (ids, g))) + inner, Expression::Var { name });
            &&& s2 == s + fresh_cells(s.len(), ids.len())
            &&& r == Ok::<MonoType, TypeError>(resolve(s, g).rename(ids, s.len()))
            &&& forall|k: usize|
                #[trigger] resolve(s, g).rename(ids, s.len()).mentions(k) ==> s.len() <= k || !ids.contains(k)
        }),
{
    let ids = g.var_list();
    let outer = env.push((name@, (ids, g)));
    lemma_lookup_past(outer, inner, name@);
    let t = resolve(s, g);
    assert forall|k: usize| #[trigger] t.rename(ids, s.len()).mentions(k) implies s.len() <= k
        || !ids.contains(k) by {
        lemma_rename_mentions(t, ids, s.len(), k);
        let j = choose|j: usize|
            t.mentions(j) && if last_index(ids, j) >= 0 {
                k == fresh_for(ids, s.len(), j)
            } else {
                k == j
            };
        lemma_last_index(ids, j);
    }
}

proof fn lemma_rename_nothing(t: MonoType, base: nat)
    ensures
        t.rename(Seq::empty(), base) == t,
    decreases t,
{
    match t {
        MonoType::Func { l, r } => {
            lemma_rename_nothing(*l, base);
            lemma_rename_nothing(*r, base);
        },
        MonoType::Var { tvar } => {
            assert(last_index(Seq::empty(), tvar) == -1);
        },
        MonoType::Bool => {},
    }
}

/// Renaming a type of unbound variables into fresh cells keeps it unbound.
proof fn lemma_rename_unbound(vars: Seq<VarType>, t: MonoType, ids: Seq<usize>)
    requires
        all_unbound(vars, t),
        vars.len() + ids.len() <= usize::MAX,
    ensures
        all_unbound(vars + fresh_cells(vars.len(), ids.len()), t.rename(ids, vars.len())),
    decreases t,
{
    let more = fresh_cells(vars.len(), ids.len());
    match t {
        MonoType::Func { l, r } => {
            lemma_rename_unbound(vars, *l, ids);
            lemma_rename_unbound(vars, *r, ids);
        },
        MonoType::Var { tvar } => {
            lemma_last_index(ids, tvar);
            if last_index(ids, tvar) >= 0 {
                let k = vars.len() + last_index(ids, tvar);
                assert((vars + more)[k] == more[last_index(ids, tvar)]);
            } else {
                lemma_all_unbound_extend(vars, more, t);
            }
        },
        MonoType::Bool => {},
    }
}

/// A fresh monotype for the scheme: each quantified variable is replaced by
/// a new unbound variable, shared by all its occurrences.
pub fn instantiate(ctx: &mut TypeContext, s: &PolyType) -> (r: MonoType)
    requires
        old(ctx).wf(),
        s.typ.vars_below(old(ctx).cells().len()),
    ensures
        final(ctx).cells() == old(ctx).cells() + fresh_cells(
            old(ctx).cells().len(),
            s.tvar_ids@.len(),
        ),
        final(ctx).symbols() == old(ctx).symbols(),
        final(ctx).wf(),
        old(ctx).env_below() ==> final(ctx).env_below(),
        extends(final(ctx).cells(), old(ctx).cells()),
        r == resolve(old(ctx).cells(), s.typ).rename(s.tvar_ids@, old(ctx).cells().len()),
        all_unbound(final(ctx).cells(), r),
{
    let ghost s0 = ctx.cells();
    let base = ctx.cell_count();
    let t = ctx.resolve(&s.typ);
    proof {
        lemma_extends_refl(s0);
        lemma_resolve_all_unbound(s0, s.typ);
        assert(s0 + fresh_cells(base as nat, 0) =~= s0);
    }
    let n = s.tvar_ids.len();
    let mut k: usize = 0;
    while k < n
        invariant
            k <= n,
            n == s.tvar_ids@.len(),
            base == s0.len(),
            s0 == old(ctx).cells(),
            old(ctx).wf(),
            ctx.cells() == s0 + fresh_cells(base as nat, k as nat),
            ctx.symbols() == old(ctx).symbols(),
            ctx.wf(),
            old(ctx).env_below() ==> ctx.env_below(),
            extends(ctx.cells(), s0),
        decreases n - k,
    {
        let ghost before = ctx.cells();
        let _ = ctx.fresh_variable();
        proof {
            lemma_extends_trans(s0, before, ctx.cells());
            assert(ctx.cells() =~= s0 + fresh_cells(base as nat, (k + 1) as nat));
        }
        k = k + 1;
    }
    // the cell count fits in usize, so the fresh names do too
    let total = ctx.cell_count();
    proof {
        assert(total == base + n);
        lemma_rename_unbound(s0, t, s.tvar_ids@);
    }
    t.renamed(&s.tvar_ids, base)
}

/// The scheme that quantifies over every unbound variable of `t`.
pub fn generalize(ctx: &TypeContext, t: &MonoType) -> (r: PolyType)
    ensures
        r.typ == resolve(ctx.cells(), *t),
        r.tvar_ids@ == resolve(ctx.cells(), *t).var_list(),
{
    let typ = ctx.resolve(t);
    let mut ids: Vec<usize> = Vec::new();
    typ.collect_vars(&mut ids);
    assert(Seq::<usize>::empty() + typ.var_list() =~= typ.var_list());
    PolyType { tvar_ids: ids, typ }
}

/// Infers the type of `e` in the context (Algorithm J). The type returned
/// is resolved: every variable in it is unbound when the call returns.
pub fn infer(ctx: &mut TypeContext, e: &Expression) -> (r: Result<MonoType, TypeError>)
    requires
        old(ctx).wf(),
        old(ctx).env_below(),
    ensures
        final(ctx).wf(),
        final(ctx).env_below(),
        final(ctx).symbols() == old(ctx).symbols(),
        extends(final(ctx).cells(), old(ctx).cells()),
        r matches Ok(t) ==> all_unbound(final(ctx).cells(), t),
        (final(ctx).cells(), r) == infer_spec(old(ctx).cells(), old(ctx).env(), *e),
        match e {
            Expression::True | Expression::False => r == Ok::<MonoType, TypeError>(MonoType::Bool)
                && final(ctx).cells() == old(ctx).cells(),
            Expression::Var { name } => match lookup(old(ctx).env(), name@) {
                None => r == Err::<MonoType, TypeError>(TypeError::VarNotFound(*name))
                    && final(ctx).cells() == old(ctx).cells(),
                Some(s) => r == Ok::<MonoType, TypeError>(
                    resolve(old(ctx).cells(), s.1).rename(s.0, old(ctx).cells().len()),
                ) && final(ctx).cells() == old(ctx).cells() + fresh_cells(
                    old(ctx).cells().len(),
                    s.0.len(),
                ),
            },
            // the parameter's type is the fresh variable made for it
            Expression::Abs { .. } => r matches Ok(t) ==> t matches MonoType::Func { l, .. } && *l
                == resolve(
                final(ctx).cells(),
                MonoType::Var { tvar: old(ctx).cells().len() as usize },
            ),
            _ => true,
        },
    decreases e,
{
    let ghost s0 = ctx.cells();
    proof {
        lemma_extends_refl(s0);
    }
    match e {
        Expression::Var { name } => {
            match ctx.lookup_sym(name) {
                Some(s) => {
                    proof {
                        lemma_lookup_in(ctx.env(), name@);
                        let k = choose|k: int|
                            0 <= k < ctx.env().len() && #[trigger] ctx.env()[k].1 == lookup(
                                ctx.env(),
                                name@,
                            )->0;
                        assert(ctx.symbols()[k].1.typ == s.typ);
                    }
                    let t = instantiate(ctx, &s);
                    Ok(t)
                },
                None => Err(TypeError::VarNotFound(name.clone())),
            }
        },
        Expression::App { e0, e1 } => {
            let t0 = match infer(ctx, e0) {
                Ok(t) => t,
                Err(err) => {
                    return Err(err);
                },
            };
            let ghost s1 = ctx.cells();
            let t1 = match infer(ctx, e1) {
                Ok(t) => t,
                Err(err) => {
                    proof {
                        lemma_extends_trans(s0, s1, ctx.cells());
                    }
                    return Err(err);
                },
            };
            let ghost s2 = ctx.cells();
            let t2 = ctx.fresh_variable();
            let ghost s3 = ctx.cells();
            let f = MonoType::Func { l: Box::new(t1), r: Box::new(t2.copy()) };
            proof {
                lemma_extends_trans(s0, s1, s2);
                lemma_extends_trans(s0, s2, s3);
                lemma_all_unbound_below(s1, t0);
                lemma_all_unbound_below(s2, t1);
                crate::ctx::lemma_vars_below_mono(t0, s1.len(), s3.len());
                crate::ctx::lemma_vars_below_mono(t1, s2.len(), s3.len());
                assert(t2.vars_below(s3.len()));
                assert(f.vars_below(s3.len()));
            }
            let res = unify(ctx, &t0, &f);
            proof {
                lemma_extends_trans(s0, s3, ctx.cells());
            }
            match res {
                Ok(()) => {
                    let t = ctx.resolve(&t2);
                    proof {
                        lemma_resolve_all_unbound(ctx.cells(), t2);
                    }
                    Ok(t)
                },
                Err(err) => Err(err),
            }
        },
        Expression::Abs { name, e } => {
            let t0 = ctx.fresh_variable();
            let ghost s1 = ctx.cells();
            ctx.insert_sym(name.clone(), t0.copy().as_poly());
            proof {
                assert(ctx.symbols()[ctx.symbols().len() - 1].1.typ == t0);
            }
            let res = infer(ctx, e);
            ctx.pop_sym();
            proof {
                lemma_extends_trans(s0, s1, ctx.cells());
                assert(ctx.symbols() =~= old(ctx).symbols());
                lemma_syms_below_mono(ctx.symbols(), s0.len(), ctx.cells().len());
            }
            match res {
                Ok(t1) => {
                    let f = MonoType::Func { l: Box::new(t0), r: Box::new(t1) };
                    let t = ctx.resolve(&f);
                    proof {
                        lemma_all_unbound_below(ctx.cells(), t1);
                        crate::ctx::lemma_vars_below_mono(t0, s1.len(), ctx.cells().len());
                        lemma_resolve_all_unbound(ctx.cells(), f);
                    }
                    Ok(t)
                },
                Err(err) => Err(err),
            }
        },
        Expression::Let { name, e0, e1 } => {
            let t0 = match infer(ctx, e0) {
                Ok(t) => t,
                Err(err) => {
                    return Err(err);
                },
            };
            let ghost s1 = ctx.cells();
            let s = generalize(ctx, &t0);
            proof {
                lemma_all_unbound_below(s1, t0);
                lemma_resolve_all_unbound(s1, t0);
                lemma_all_unbound_below(s1, s.typ);
            }
            ctx.insert_sym(name.clone(), s);
            let res = infer(ctx, e1);
            ctx.pop_sym();
            proof {
                lemma_extends_trans(s0, s1, ctx.cells());
                assert(ctx.symbols() =~= old(ctx).symbols());
                lemma_syms_below_mono(ctx.symbols(), s0.len(), ctx.cells().len());
            }
            res
        },
        Expression::True => Ok(MonoType::Bool),
        Expression::False => Ok(MonoType::Bool),
    }
}

} // verus!
