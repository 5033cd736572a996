use vstd::prelude::*;

verus! {

/// A monomorphic type. A `Var` names a variable cell of the inference
/// context by its index; the cell says whether the variable is bound.
#[derive(Debug, PartialEq, Eq)]
pub enum MonoType {
    Bool,
    Func { l: Box<MonoType>, r: Box<MonoType> },
    Var { tvar: usize },
}

/// The state of a variable cell.
#[derive(Debug, PartialEq, Eq)]
pub enum VarType {
    Bound { typ: MonoType },
    Unbound { id: usize },
}

/// A type scheme: `typ` quantified over the variables in `tvar_ids`.
#[derive(Debug)]
pub struct PolyType {
    pub tvar_ids: Vec<usize>,
    pub typ: MonoType,
}

impl MonoType {
    pub open spec fn size(self) -> nat
        decreases self,
    {
        match self {
            MonoType::Func { l, r } => 1 + l.size() + r.size(),
            _ => 1,
        }
    }

    /// Whether the variable `id` appears in the type itself (links not followed).
    pub open spec fn mentions(self, id: usize) -> bool
        decreases self,
    {
        match self {
            MonoType::Bool => false,
            MonoType::Func { l, r } => l.mentions(id) || r.mentions(id),
            MonoType::Var { tvar } => tvar == id,
        }
    }

    /// Every variable of the type is a cell index below `n`.
    pub open spec fn vars_below(self, n: nat) -> bool
        decreases self,
    {
        match self {
            MonoType::Bool => true,
            MonoType::Func { l, r } => l.vars_below(n) && r.vars_below(n),
            MonoType::Var { tvar } => tvar < n,
        }
    }

    /// The variables of the type in left-to-right preorder, with repetitions.
    pub open spec fn var_list(self) -> Seq<usize>
        decreases self,
    {
        match self {
            MonoType::Bool => Seq::empty(),
            MonoType::Func { l, r } => l.var_list() + r.var_list(),
            MonoType::Var { tvar } => seq![tvar],
        }
    }

    /// Replaces each variable listed in `ids` by the fresh variable that
    /// `fresh_for` gives it; other variables are kept.
    pub open spec fn rename(self, ids: Seq<usize>, base: nat) -> MonoType
        decreases self,
    {
        match self {
            MonoType::Bool => MonoType::Bool,
            MonoType::Func { l, r } => MonoType::Func {
                l: Box::new(l.rename(ids, base)),
                r: Box::new(r.rename(ids, base)),
            },
            MonoType::Var { tvar } => if last_index(ids, tvar) >= 0 {
                MonoType::Var { tvar: fresh_for(ids, base, tvar) }
            } else {
                self
            },
        }
    }

    /// The type with every occurrence of the variable `id` replaced by `b`.
    pub open spec fn subst(self, id: usize, b: MonoType) -> MonoType
        decreases self,
    {
        match self {
            MonoType::Bool => MonoType::Bool,
            MonoType::Func { l, r } => MonoType::Func {
                l: Box::new(l.subst(id, b)),
                r: Box::new(r.subst(id, b)),
            },
            MonoType::Var { tvar } => if tvar == id {
                b
            } else {
                self
            },
        }
    }

    /// Replaces the variable `id` by `b`.
    pub fn substitute(&self, id: usize, b: &MonoType) -> (r: MonoType)
        ensures
            r == self.subst(id, *b),
        decreases self,
    {
        match self {
            MonoType::Bool => MonoType::Bool,
            MonoType::Func { l, r } => MonoType::Func {
                l: Box::new(l.substitute(id, b)),
                r: Box::new(r.substitute(id, b)),
            },
            MonoType::Var { tvar } => if *tvar == id {
                b.copy()
            } else {
                MonoType::Var { tvar: *tvar }
            },
        }
    }

    /// Whether the variable `id` appears in the type.
    pub fn contains_var(&self, id: usize) -> (r: bool)
        ensures
            r == self.mentions(id),
        decreases self,
    {
        match self {
            MonoType::Bool => false,
            MonoType::Func { l, r } => l.contains_var(id) || r.contains_var(id),
            MonoType::Var { tvar } => *tvar == id,
        }
    }

    /// The type with the variables listed in `ids` replaced as `rename` says.
    pub fn renamed(&self, ids: &Vec<usize>, base: usize) -> (r: MonoType)
        requires
            base + ids@.len() <= usize::MAX,
        ensures
            r == self.rename(ids@, base as nat),
        decreases self,
    {
        match self {
            MonoType::Bool => MonoType::Bool,
            MonoType::Func { l, r } => MonoType::Func {
                l: Box::new(l.renamed(ids, base)),
                r: Box::new(r.renamed(ids, base)),
            },
            MonoType::Var { tvar } => match last_position(ids, *tvar) {
                Some(k) => {
                    proof {
                        lemma_last_index(ids@, *tvar);
                    }
                    MonoType::Var { tvar: base + k }
                },
                None => MonoType::Var { tvar: *tvar },
            },
        }
    }

    /// Appends the variables of the type, in preorder, to `out`.
    pub fn collect_vars(&self, out: &mut Vec<usize>)
        ensures
            final(out)@ == old(out)@ + self.var_list(),
        decreases self,
    {
        match self {
            MonoType::Bool => {
                assert(old(out)@ + self.var_list() =~= old(out)@);
            },
            MonoType::Func { l, r } => {
                l.collect_vars(out);
                r.collect_vars(out);
                assert(old(out)@ + l.var_list() + r.var_list() =~= old(out)@ + (l.var_list()
                    + r.var_list()));
            },
            MonoType::Var { tvar } => {
                out.push(*tvar);
            },
        }
    }

    /// A copy of the type.
    pub fn copy(&self) -> (r: MonoType)
        ensures
            r == *self,
        decreases self,
    {
        match self {
            MonoType::Bool => MonoType::Bool,
            MonoType::Func { l, r } => MonoType::Func { l: Box::new(l.copy()), r: Box::new(r.copy()) },
            MonoType::Var { tvar } => MonoType::Var { tvar: *tvar },
        }
    }

    /// The scheme of the type with no quantified variables.
    pub fn as_poly(self) -> (r: PolyType)
        ensures
            r.tvar_ids@ == Seq::<usize>::empty(),
            r.typ == self,
    {
        PolyType { tvar_ids: Vec::new(), typ: self }
    }
}

impl View for PolyType {
    type V = (Seq<usize>, MonoType);

    open spec fn view(&self) -> (Seq<usize>, MonoType) {
        (self.tvar_ids@, self.typ)
    }
}

impl PolyType {
    /// A copy of the scheme.
    pub fn copy(&self) -> (r: PolyType)
        ensures
            r@ == self@,
    {
        let mut ids: Vec<usize> = Vec::new();
        let mut k: usize = 0;
        while k < self.tvar_ids.len()
            invariant
                k <= self.tvar_ids@.len(),
                ids@ == self.tvar_ids@.subrange(0, k as int),
            decreases self.tvar_ids@.len() - k,
        {
            ids.push(self.tvar_ids[k]);
            k = k + 1;
        }
        assert(ids@ =~= self.tvar_ids@);
        PolyType { tvar_ids: ids, typ: self.typ.copy() }
    }
}

/// The last position of `id` in `ids`, or -1.
pub open spec fn last_index(ids: Seq<usize>, id: usize) -> int
    decreases ids.len(),
{
    if ids.len() == 0 {
        -1
    } else if ids.last() == id {
        ids.len() - 1
    } else {
        last_index(ids.drop_last(), id)
    }
}

/// The last position of `id` in `ids`, if any.
pub fn last_position(ids: &Vec<usize>, id: usize) -> (r: Option<usize>)
    ensures
        r matches Some(k) ==> k == last_index(ids@, id),
        r is None ==> last_index(ids@, id) == -1,
{
    let mut k = ids.len();
    assert(ids@.subrange(0, k as int) =~= ids@);
    while k > 0
        invariant
            k <= ids@.len(),
            last_index(ids@, id) == last_index(ids@.subrange(0, k as int), id),
        decreases k,
    {
        assert(ids@.subrange(0, k as int).drop_last() =~= ids@.subrange(0, k - 1));
        if ids[k - 1] == id {
            return Some(k - 1);
        }
        k = k - 1;
    }
    None
}

/// The fresh variable that instantiation gives to `id`: one fresh cell is
/// made per entry of `ids`, starting at `base`, and the last entry for `id` wins.
pub open spec fn fresh_for(ids: Seq<usize>, base: nat, id: usize) -> usize {
    (base + last_index(ids, id)) as usize
}

pub proof fn lemma_last_index(ids: Seq<usize>, id: usize)
    ensures
        -1 <= last_index(ids, id) < ids.len(),
        last_index(ids, id) >= 0 ==> ids[last_index(ids, id)] == id,
        last_index(ids, id) < 0 <==> !ids.contains(id),
    decreases ids.len(),
{
    if ids.len() > 0 {
        lemma_last_index(ids.drop_last(), id);
        if ids.last() != id {
            assert(ids.contains(id) ==> ids.drop_last().contains(id)) by {
                if ids.contains(id) {
                    let k = choose|k: int| 0 <= k < ids.len() && ids[k] == id;
                    assert(ids.drop_last()[k] == id);
                }
            }
            assert(ids.drop_last().contains(id) ==> ids.contains(id)) by {
                if ids.drop_last().contains(id) {
                    let k = choose|k: int| 0 <= k < ids.len() - 1 && ids.drop_last()[k] == id;
                    assert(ids[k] == id);
                }
            }
        } else {
            assert(ids[ids.len() - 1] == id);
        }
    }
}

} // verus!
