use vstd::prelude::*;

use crate::typ::{MonoType, PolyType, VarType};

verus! {

/// The variable cells of one inference run and the stack of symbols in scope.
pub struct TypeContext {
    vars: Vec<VarType>,
    syms: Vec<(String, PolyType)>,
}

/// The cell `i` exists and holds an unbound variable.
pub open spec fn is_unbound(vars: Seq<VarType>, i: usize) -> bool {
    i < vars.len() && vars[i as int] is Unbound
}

/// Every variable of `t` is an unbound cell of `vars`.
pub open spec fn all_unbound(vars: Seq<VarType>, t: MonoType) -> bool
    decreases t,
{
    match t {
        MonoType::Bool => true,
        MonoType::Func { l, r } => all_unbound(vars, *l) && all_unbound(vars, *r),
        MonoType::Var { tvar } => is_unbound(vars, tvar),
    }
}

/// Cells are numbered by their position; a bound cell holds a type whose
/// variables are all unbound, so following one link resolves it.
pub open spec fn cells_wf(vars: Seq<VarType>) -> bool {
    forall|i: int|
        0 <= i < vars.len() ==> match #[trigger] vars[i] {
            VarType::Unbound { id } => id == i,
            VarType::Bound { typ } => all_unbound(vars, typ),
        }
}

/// The type `t` with every bound variable replaced by what it is bound to.
pub open spec fn resolve(vars: Seq<VarType>, t: MonoType) -> MonoType
    decreases t,
{
    match t {
        MonoType::Bool => MonoType::Bool,
        MonoType::Func { l, r } => MonoType::Func {
            l: Box::new(resolve(vars, *l)),
            r: Box::new(resolve(vars, *r)),
        },
        MonoType::Var { tvar } => if tvar < vars.len() {
            match vars[tvar as int] {
                VarType::Bound { typ } => typ,
                VarType::Unbound { .. } => t,
            }
        } else {
            t
        },
    }
}

/// The number of unbound cells.
pub open spec fn unbound_count(vars: Seq<VarType>) -> nat
    decreases vars.len(),
{
    if vars.len() == 0 {
        0
    } else {
        unbound_count(vars.drop_last()) + if vars.last() is Unbound {
            1nat
        } else {
            0nat
        }
    }
}

pub proof fn lemma_all_unbound_below(vars: Seq<VarType>, t: MonoType)
    requires
        all_unbound(vars, t),
    ensures
        t.vars_below(vars.len()),
    decreases t,
{
    if let MonoType::Func { l, r } = t {
        lemma_all_unbound_below(vars, *l);
        lemma_all_unbound_below(vars, *r);
    }
}

/// A type whose variables are all unbound is its own resolution.
pub proof fn lemma_resolve_unbound(vars: Seq<VarType>, t: MonoType)
    requires
        all_unbound(vars, t),
    ensures
        resolve(vars, t) == t,
    decreases t,
{
    if let MonoType::Func { l, r } = t {
        lemma_resolve_unbound(vars, *l);
        lemma_resolve_unbound(vars, *r);
    }
}

/// A resolved type has only unbound variables.
pub proof fn lemma_resolve_all_unbound(vars: Seq<VarType>, t: MonoType)
    requires
        cells_wf(vars),
        t.vars_below(vars.len()),
    ensures
        all_unbound(vars, resolve(vars, t)),
        resolve(vars, resolve(vars, t)) == resolve(vars, t),
    decreases t,
{
    match t {
        MonoType::Func { l, r } => {
            lemma_resolve_all_unbound(vars, *l);
            lemma_resolve_all_unbound(vars, *r);
        },
        MonoType::Var { tvar } => {
            let c = vars[tvar as int];
            assert(match c {
                VarType::Unbound { id } => id == tvar,
                VarType::Bound { typ } => all_unbound(vars, typ),
            });
        },
        MonoType::Bool => {},
    }
    lemma_resolve_unbound(vars, resolve(vars, t));
}

/// Adding cells at the end changes no resolution of a type over the old cells.
pub proof fn lemma_resolve_extend(vars: Seq<VarType>, more: Seq<VarType>, t: MonoType)
    requires
        t.vars_below(vars.len()),
    ensures
        resolve(vars + more, t) == resolve(vars, t),
    decreases t,
{
    match t {
        MonoType::Func { l, r } => {
            lemma_resolve_extend(vars, more, *l);
            lemma_resolve_extend(vars, more, *r);
        },
        MonoType::Var { tvar } => {
            assert((vars + more)[tvar as int] == vars[tvar as int]);
        },
        MonoType::Bool => {},
    }
}

pub proof fn lemma_all_unbound_extend(vars: Seq<VarType>, more: Seq<VarType>, t: MonoType)
    requires
        all_unbound(vars, t),
    ensures
        all_unbound(vars + more, t),
    decreases t,
{
    match t {
        MonoType::Func { l, r } => {
            lemma_all_unbound_extend(vars, more, *l);
            lemma_all_unbound_extend(vars, more, *r);
        },
        MonoType::Var { tvar } => {
            assert((vars + more)[tvar as int] == vars[tvar as int]);
        },
        MonoType::Bool => {},
    }
}

/// The symbol stack as values: each name's chars and its scheme's view.
pub open spec fn env_view(syms: Seq<(String, PolyType)>) -> Seq<(Seq<char>, (Seq<usize>, MonoType))> {
    Seq::new(syms.len(), |k: int| (syms[k].0@, syms[k].1@))
}

/// The scheme bound to `name` nearest the top of the stack.
pub open spec fn lookup(env: Seq<(Seq<char>, (Seq<usize>, MonoType))>, name: Seq<char>) -> Option<
    (Seq<usize>, MonoType),
>
    decreases env.len(),
{
    if env.len() == 0 {
        None
    } else if env.last().0 == name {
        Some(env.last().1)
    } else {
        lookup(env.drop_last(), name)
    }
}

pub proof fn lemma_lookup_in(env: Seq<(Seq<char>, (Seq<usize>, MonoType))>, name: Seq<char>)
    ensures
        lookup(env, name) matches Some(s) ==> exists|k: int| 0 <= k < env.len() && #[trigger] env[k].1 == s,
    decreases env.len(),
{
    if env.len() > 0 {
        lemma_lookup_in(env.drop_last(), name);
        if env.last().0 == name {
            assert(env[env.len() - 1].1 == env.last().1);
        } else if let Some(s) = lookup(env, name) {
            let k = choose|k: int| 0 <= k < env.drop_last().len() && #[trigger] env.drop_last()[k].1 == s;
            assert(env[k].1 == s);
        }
    }
}

/// The cells after the unbound cell `i` is bound to `b`. Every other bound
/// cell has `i` replaced by `b` in its target, so targets stay resolved.
pub open spec fn bind_cells(vars: Seq<VarType>, i: usize, b: MonoType) -> Seq<VarType> {
    Seq::new(
        vars.len(),
        |k: int|
            if k == i {
                VarType::Bound { typ: b }
            } else {
                match vars[k] {
                    VarType::Bound { typ } => VarType::Bound { typ: typ.subst(i, b) },
                    VarType::Unbound { id } => VarType::Unbound { id },
                }
            },
    )
}

/// `n` fresh unbound cells numbered from `base`.
pub open spec fn fresh_cells(base: nat, n: nat) -> Seq<VarType> {
    Seq::new(n, |k: int| VarType::Unbound { id: (base + k) as usize })
}

/// Every scheme of `syms` speaks only of cells below `n`.
pub open spec fn syms_below(syms: Seq<(String, PolyType)>, n: nat) -> bool {
    forall|k: int| 0 <= k < syms.len() ==> (#[trigger] syms[k]).1.typ.vars_below(n)
}

pub proof fn lemma_syms_below_mono(syms: Seq<(String, PolyType)>, n: nat, m: nat)
    requires
        syms_below(syms, n),
        n <= m,
    ensures
        syms_below(syms, m),
{
    assert forall|k: int| 0 <= k < syms.len() implies (#[trigger] syms[k]).1.typ.vars_below(m) by {
        lemma_vars_below_mono(syms[k].1.typ, n, m);
    }
}

/// Every type over the old cells resolves under `new` as its old resolution does.
pub open spec fn extends(new: Seq<VarType>, old: Seq<VarType>) -> bool {
    &&& old.len() <= new.len()
    &&& forall|x: MonoType|
        x.vars_below(old.len()) ==> #[trigger] resolve(new, resolve(old, x)) == resolve(new, x)
}

pub proof fn lemma_extends_refl(vars: Seq<VarType>)
    requires
        cells_wf(vars),
    ensures
        extends(vars, vars),
{
    assert forall|x: MonoType| x.vars_below(vars.len()) implies #[trigger] resolve(vars, resolve(vars, x))
        == resolve(vars, x) by {
        lemma_resolve_all_unbound(vars, x);
    }
}

pub proof fn lemma_extends_trans(s0: Seq<VarType>, s1: Seq<VarType>, s2: Seq<VarType>)
    requires
        cells_wf(s0),
        extends(s1, s0),
        extends(s2, s1),
    ensures
        extends(s2, s0),
{
    assert forall|x: MonoType| x.vars_below(s0.len()) implies #[trigger] resolve(s2, resolve(s0, x))
        == resolve(s2, x) by {
        lemma_resolve_all_unbound(s0, x);
        let y = resolve(s0, x);
        lemma_all_unbound_below(s0, y);
        lemma_vars_below_mono(y, s0.len(), s1.len());
        lemma_vars_below_mono(x, s0.len(), s1.len());
        assert(resolve(s2, resolve(s1, y)) == resolve(s2, y));
        assert(resolve(s1, resolve(s0, x)) == resolve(s1, x));
        assert(resolve(s2, resolve(s1, x)) == resolve(s2, x));
    }
}

pub proof fn lemma_vars_below_mono(t: MonoType, n: nat, m: nat)
    requires
        t.vars_below(n),
        n <= m,
    ensures
        t.vars_below(m),
    decreases t,
{
    if let MonoType::Func { l, r } = t {
        lemma_vars_below_mono(*l, n, m);
        lemma_vars_below_mono(*r, n, m);
    }
}

/// Fresh cells at the end extend the old ones.
pub proof fn lemma_extends_push(vars: Seq<VarType>, more: Seq<VarType>)
    requires
        cells_wf(vars),
    ensures
        extends(vars + more, vars),
{
    assert forall|x: MonoType| x.vars_below(vars.len()) implies #[trigger] resolve(
        vars + more,
        resolve(vars, x),
    ) == resolve(vars + more, x) by {
        lemma_resolve_all_unbound(vars, x);
        lemma_all_unbound_below(vars, resolve(vars, x));
        lemma_resolve_extend(vars, more, x);
        lemma_resolve_extend(vars, more, resolve(vars, x));
    }
}

/// A type free of `i` keeps its variables unbound when `i` is bound.
proof fn lemma_bind_keeps_unbound(vars: Seq<VarType>, i: usize, b: MonoType, t: MonoType)
    requires
        all_unbound(vars, t),
        !t.mentions(i),
        i < vars.len(),
    ensures
        all_unbound(bind_cells(vars, i, b), t),
    decreases t,
{
    if let MonoType::Func { l, r } = t {
        lemma_bind_keeps_unbound(vars, i, b, *l);
        lemma_bind_keeps_unbound(vars, i, b, *r);
    }
}

proof fn lemma_bind_subst_unbound(vars: Seq<VarType>, i: usize, b: MonoType, t: MonoType)
    requires
        all_unbound(vars, t),
        all_unbound(vars, b),
        !b.mentions(i),
        i < vars.len(),
    ensures
        all_unbound(bind_cells(vars, i, b), t.subst(i, b)),
    decreases t,
{
    match t {
        MonoType::Func { l, r } => {
            lemma_bind_subst_unbound(vars, i, b, *l);
            lemma_bind_subst_unbound(vars, i, b, *r);
        },
        MonoType::Var { tvar } => {
            if tvar == i {
                lemma_bind_keeps_unbound(vars, i, b, b);
            }
        },
        MonoType::Bool => {},
    }
}

pub proof fn lemma_subst_absent(t: MonoType, i: usize, b: MonoType)
    requires
        !t.mentions(i),
    ensures
        t.subst(i, b) == t,
    decreases t,
{
    if let MonoType::Func { l, r } = t {
        lemma_subst_absent(*l, i, b);
        lemma_subst_absent(*r, i, b);
    }
}

/// Resolving after a bind is resolving before it, then substituting.
pub proof fn lemma_bind_resolve(vars: Seq<VarType>, i: usize, b: MonoType, t: MonoType)
    requires
        cells_wf(vars),
        is_unbound(vars, i),
        t.vars_below(vars.len()),
    ensures
        resolve(bind_cells(vars, i, b), t) == resolve(vars, t).subst(i, b),
    decreases t,
{
    match t {
        MonoType::Func { l, r } => {
            lemma_bind_resolve(vars, i, b, *l);
            lemma_bind_resolve(vars, i, b, *r);
        },
        MonoType::Var { tvar } => {
            let c = vars[tvar as int];
            assert(match c {
                VarType::Unbound { id } => id == tvar,
                VarType::Bound { typ } => all_unbound(vars, typ),
            });
        },
        MonoType::Bool => {},
    }
}

proof fn lemma_unbound_count_bind(old: Seq<VarType>, new: Seq<VarType>, i: int)
    requires
        old.len() == new.len(),
        0 <= i < old.len(),
        old[i] is Unbound,
        new[i] is Bound,
        forall|k: int| 0 <= k < old.len() && k != i ==> (#[trigger] old[k] is Unbound <==> new[k] is Unbound),
    ensures
        unbound_count(new) + 1 == unbound_count(old),
    decreases old.len(),
{
    if i < old.len() - 1 {
        lemma_unbound_count_bind(old.drop_last(), new.drop_last(), i);
    } else {
        lemma_unbound_count_same(old.drop_last(), new.drop_last());
    }
}

proof fn lemma_unbound_count_same(old: Seq<VarType>, new: Seq<VarType>)
    requires
        old.len() == new.len(),
        forall|k: int| 0 <= k < old.len() ==> (#[trigger] old[k] is Unbound <==> new[k] is Unbound),
    ensures
        unbound_count(new) == unbound_count(old),
    decreases old.len(),
{
    if old.len() > 0 {
        lemma_unbound_count_same(old.drop_last(), new.drop_last());
    }
}

/// What binding an unbound cell to a type free of it does.
pub proof fn lemma_bind(vars: Seq<VarType>, i: usize, b: MonoType)
    requires
        cells_wf(vars),
        is_unbound(vars, i),
        all_unbound(vars, b),
        !b.mentions(i),
    ensures
        cells_wf(bind_cells(vars, i, b)),
        extends(bind_cells(vars, i, b), vars),
        unbound_count(bind_cells(vars, i, b)) < unbound_count(vars),
        bind_cells(vars, i, b).len() == vars.len(),
{
    let new = bind_cells(vars, i, b);
    assert forall|k: int| 0 <= k < new.len() implies match #[trigger] new[k] {
        VarType::Unbound { id } => id == k,
        VarType::Bound { typ } => all_unbound(new, typ),
    } by {
        if k == i {
            lemma_bind_keeps_unbound(vars, i, b, b);
        } else {
            let c = vars[k];
            assert(match c {
                VarType::Unbound { id } => id == k,
                VarType::Bound { typ } => all_unbound(vars, typ),
            });
            if let VarType::Bound { typ } = c {
                lemma_bind_subst_unbound(vars, i, b, typ);
            }
        }
    }
    assert forall|x: MonoType| x.vars_below(vars.len()) implies #[trigger] resolve(new, resolve(vars, x))
        == resolve(new, x) by {
        lemma_resolve_all_unbound(vars, x);
        lemma_all_unbound_below(vars, resolve(vars, x));
        lemma_bind_resolve(vars, i, b, x);
        lemma_bind_resolve(vars, i, b, resolve(vars, x));
    }
    lemma_unbound_count_bind(vars, new, i as int);
}

/// Fresh unbound cells added at the end keep the cells well formed.
pub proof fn lemma_grow(old: Seq<VarType>, new: Seq<VarType>)
    requires
        cells_wf(old),
        old.len() <= new.len(),
        new.subrange(0, old.len() as int) == old,
        new.len() <= usize::MAX,
        forall|k: int| old.len() <= k < new.len() ==> #[trigger] new[k] == (VarType::Unbound { id: k as usize }),
    ensures
        cells_wf(new),
{
    let more = new.subrange(old.len() as int, new.len() as int);
    assert(new =~= old + more);
    assert forall|i: int| 0 <= i < new.len() implies match #[trigger] new[i] {
        VarType::Unbound { id } => id == i,
        VarType::Bound { typ } => all_unbound(new, typ),
    } by {
        if i < old.len() {
            let c = old[i];
            assert(c == new[i]);
            assert(match c {
                VarType::Unbound { id } => id == i,
                VarType::Bound { typ } => all_unbound(old, typ),
            });
            if let VarType::Bound { typ } = c {
                lemma_all_unbound_extend(old, more, typ);
            }
        } else {
            assert(new[i] == (VarType::Unbound { id: i as usize }));
            assert(i as usize == i);
        }
    }
}

impl TypeContext {
    pub closed spec fn cells(self) -> Seq<VarType> {
        self.vars@
    }

    pub closed spec fn symbols(self) -> Seq<(String, PolyType)> {
        self.syms@
    }

    pub open spec fn env(self) -> Seq<(Seq<char>, (Seq<usize>, MonoType))> {
        env_view(self.symbols())
    }

    pub open spec fn wf(self) -> bool {
        cells_wf(self.cells())
    }

    /// Every scheme in scope speaks only of existing cells.
    pub open spec fn env_below(self) -> bool {
        syms_below(self.symbols(), self.cells().len())
    }

    /// An empty context: no cells, no symbols.
    pub fn new() -> (r: TypeContext)
        ensures
            r.wf(),
            r.cells() == Seq::<VarType>::empty(),
            r.symbols() == Seq::<(String, PolyType)>::empty(),
    {
        TypeContext { vars: Vec::new(), syms: Vec::new() }
    }

    /// Pushes a binding on the symbol stack.
    pub fn insert_sym(&mut self, sym: String, t: PolyType)
        ensures
            final(self).cells() == old(self).cells(),
            final(self).symbols() == old(self).symbols().push((sym, t)),
            final(self).env() == old(self).env().push((sym@, t@)),
    {
        self.syms.push((sym, t));
        assert(self.env() =~= old(self).env().push((sym@, t@)));
    }

    /// Pops the top binding of the symbol stack, if any.
    pub fn pop_sym(&mut self)
        ensures
            final(self).cells() == old(self).cells(),
            old(self).symbols().len() > 0 ==> final(self).symbols() == old(self).symbols().drop_last(),
            old(self).symbols().len() == 0 ==> final(self).symbols() == old(self).symbols(),
    {
        self.syms.pop();
    }

    /// The number of variable cells.
    pub fn cell_count(&self) -> (r: usize)
        ensures
            r == self.cells().len(),
    {
        self.vars.len()
    }

    /// The scheme bound to `sym` nearest the top of the stack.
    pub fn lookup_sym(&self, sym: &String) -> (r: Option<PolyType>)
        ensures
            r is Some == lookup(self.env(), sym@) is Some,
            r matches Some(p) ==> p@ == lookup(self.env(), sym@)->0,
    {
        let mut k = self.syms.len();
        assert(self.env().subrange(0, k as int) =~= self.env());
        while k > 0
            invariant
                k <= self.syms@.len(),
                lookup(self.env(), sym@) == lookup(self.env().subrange(0, k as int), sym@),
            decreases k,
        {
            let ghost pre = self.env().subrange(0, k as int);
            assert(pre.drop_last() =~= self.env().subrange(0, k - 1));
            if self.syms[k - 1].0 == *sym {
                return Some(self.syms[k - 1].1.copy());
            }
            k = k - 1;
        }
        None
    }

    /// A new unbound variable, whose cell comes after all existing ones.
    pub fn fresh_variable(&mut self) -> (r: MonoType)
        ensures
            final(self).cells() == old(self).cells().push(VarType::Unbound { id: old(self).cells().len() as usize }),
            final(self).symbols() == old(self).symbols(),
            r == (MonoType::Var { tvar: old(self).cells().len() as usize }),
            old(self).wf() ==> final(self).wf(),
            old(self).env_below() ==> final(self).env_below(),
            extends(final(self).cells(), old(self).cells()) || !old(self).wf(),
    {
        let ghost before = *self;
        let id = self.vars.len();
        self.vars.push(VarType::Unbound { id });
        proof {
            let more = seq![VarType::Unbound { id }];
            assert(self.vars.len() == self.vars@.len());
            assert(self.vars@ =~= before.vars@ + more);
            if before.wf() {
                lemma_extends_push(before.vars@, more);
            }
            assert(self.vars@.subrange(0, before.vars@.len() as int) =~= before.vars@);
            if before.wf() {
                lemma_grow(before.vars@, self.vars@);
            }
            if before.env_below() {
                lemma_syms_below_mono(before.syms@, before.vars@.len(), self.vars@.len());
            }
        }
        MonoType::Var { tvar: id }
    }

    /// The resolution of `t`: each bound variable replaced by its target.
    pub fn resolve(&self, t: &MonoType) -> (r: MonoType)
        ensures
            r == resolve(self.cells(), *t),
        decreases t,
    {
        match t {
            MonoType::Bool => MonoType::Bool,
            MonoType::Func { l, r } => MonoType::Func {
                l: Box::new(self.resolve(l)),
                r: Box::new(self.resolve(r)),
            },
            MonoType::Var { tvar } => {
                if *tvar < self.vars.len() {
                    match &self.vars[*tvar] {
                        VarType::Bound { typ } => typ.copy(),
                        VarType::Unbound { .. } => MonoType::Var { tvar: *tvar },
                    }
                } else {
                    MonoType::Var { tvar: *tvar }
                }
            },
        }
    }

    /// Binds the unbound cell `i` to `b`, which must not mention it.
    pub fn bind(&mut self, i: usize, b: &MonoType)
        requires
            old(self).wf(),
            is_unbound(old(self).cells(), i),
            all_unbound(old(self).cells(), *b),
            !b.mentions(i),
        ensures
            final(self).cells() == bind_cells(old(self).cells(), i, *b),
            final(self).symbols() == old(self).symbols(),
            final(self).wf(),
            extends(final(self).cells(), old(self).cells()),
            unbound_count(final(self).cells()) < unbound_count(old(self).cells()),
    {
        proof {
            lemma_bind(self.vars@, i, *b);
        }
        let ghost old_vars = self.vars@;
        let n = self.vars.len();
        let mut k: usize = 0;
        while k < n
            invariant
                self.vars@.len() == n,
                n == old_vars.len(),
                self.syms@ == old(self).syms@,
                k <= n,
                i < n,
                forall|j: int| 0 <= j < k ==> #[trigger] self.vars@[j] == bind_cells(old_vars, i, *b)[j],
                forall|j: int| k <= j < n ==> #[trigger] self.vars@[j] == old_vars[j],
            decreases n - k,
        {
            let cell = if k == i {
                VarType::Bound { typ: b.copy() }
            } else {
                match &self.vars[k] {
                    VarType::Bound { typ } => VarType::Bound { typ: typ.substitute(i, b) },
                    VarType::Unbound { id } => VarType::Unbound { id: *id },
                }
            };
            self.vars.set(k, cell);
            k = k + 1;
        }
        assert(self.vars@ =~= bind_cells(old_vars, i, *b));
    }
}

} // verus!
