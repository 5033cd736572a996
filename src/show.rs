use vstd::prelude::*;

use crate::ctx::{resolve, TypeContext};
use crate::typ::{MonoType, PolyType};

verus! {

/// The lowercase letter for `n % 26`.
pub open spec fn letter(n: nat) -> char {
    ((97 + n % 26) as u8) as char
}

/// The name of the `n`-th variable: `a` to `z`, then `aa`, `ab`, and so on.
pub open spec fn var_name(n: nat) -> Seq<char>
    decreases n,
{
    if n < 26 {
        seq![letter(n)]
    } else {
        var_name((n / 26 - 1) as nat) + seq![letter(n % 26)]
    }
}

/// The first position of `k` in `s`, or -1.
pub open spec fn first_index(s: Seq<usize>, k: usize) -> int
    decreases s.len(),
{
    if s.len() == 0 {
        -1
    } else if s[0] == k {
        0
    } else if first_index(s.drop_first(), k) < 0 {
        -1
    } else {
        first_index(s.drop_first(), k) + 1
    }
}

proof fn lemma_first_index(s: Seq<usize>, k: usize, i: int)
    requires
        0 <= i <= s.len(),
        forall|j: int| 0 <= j < i ==> s[j] != k,
    ensures
        i < s.len() && s[i] == k ==> first_index(s, k) == i,
        i == s.len() ==> first_index(s, k) == -1,
    decreases i,
{
    if i > 0 {
        assert forall|j: int| 0 <= j < i - 1 implies s.drop_first()[j] != k by {
            assert(s.drop_first()[j] == s[j + 1]);
        }
        lemma_first_index(s.drop_first(), k, i - 1);
    }
}

/// The first position of `k` in `order`, 0 where it is missing.
pub open spec fn name_index(order: Seq<usize>, k: usize) -> nat {
    if first_index(order, k) >= 0 {
        first_index(order, k) as nat
    } else {
        0
    }
}

pub open spec fn arrow() -> Seq<char> {
    seq![' ', '-', '>', ' ']
}

/// The text of `t`, where the variable `order[i]` is named `'` followed by
/// `var_name(i)`. Only the left operand of an arrow that is itself an arrow
/// is put in parentheses.
pub open spec fn show(t: MonoType, order: Seq<usize>) -> Seq<char>
    decreases t,
{
    match t {
        MonoType::Bool => seq!['B', 'o', 'o', 'l'],
        MonoType::Func { l, r } => if *l is Func {
            seq!['('] + show(*l, order) + seq![')'] + arrow() + show(*r, order)
        } else {
            show(*l, order) + arrow() + show(*r, order)
        },
        MonoType::Var { tvar } => seq!['\''] + var_name(name_index(order, tvar)),
    }
}

pub open spec fn strictly_sorted(s: Seq<usize>) -> bool {
    forall|i: int, j: int| 0 <= i < j < s.len() ==> s[i] < s[j]
}

/// The distinct ids of `ids`, ascending.
pub open spec fn is_sorted_set_of(order: Seq<usize>, ids: Seq<usize>) -> bool {
    strictly_sorted(order) && order.to_set() == ids.to_set()
}

/// The names of the first `n` variables, separated by `, `.
pub open spec fn scheme_letters(n: nat) -> Seq<char>
    decreases n,
{
    if n == 0 {
        Seq::empty()
    } else if n == 1 {
        var_name(0)
    } else {
        scheme_letters((n - 1) as nat) + seq![',', ' '] + var_name((n - 1) as nat)
    }
}

/// The text of a scheme with `n` quantified variables: `forall `, the names
/// `a, b, ...` of those variables in scheme order, `. `, and the type, where
/// each variable is named by its first place in `order`.
pub open spec fn show_scheme(n: nat, t: MonoType, order: Seq<usize>) -> Seq<char> {
    seq!['f', 'o', 'r', 'a', 'l', 'l', ' '] + scheme_letters(n) + seq!['.', ' '] + show(t, order)
}

proof fn lemma_sorted_drop_first(o: Seq<usize>)
    requires
        strictly_sorted(o),
        o.len() > 0,
    ensures
        strictly_sorted(o.drop_first()),
        o.drop_first().to_set() == o.to_set().remove(o[0]),
{
    let d = o.drop_first();
    assert forall|a: usize| d.to_set().contains(a) == o.to_set().remove(o[0]).contains(a) by {
        if d.to_set().contains(a) {
            let i = choose|i: int| 0 <= i < d.len() && d[i] == a;
            assert(o[i + 1] == a);
        }
        if o.to_set().contains(a) && a != o[0] {
            let i = choose|i: int| 0 <= i < o.len() && o[i] == a;
            assert(d[i - 1] == a);
        }
    }
    assert(d.to_set() =~= o.to_set().remove(o[0]));
}

/// Two ascending lists of distinct ids with the same elements are equal.
proof fn lemma_sorted_set_unique(o1: Seq<usize>, o2: Seq<usize>)
    requires
        strictly_sorted(o1),
        strictly_sorted(o2),
        o1.to_set() == o2.to_set(),
    ensures
        o1 == o2,
    decreases o1.len(),
{
    if o1.len() == 0 || o2.len() == 0 {
        if o1.len() > 0 {
            assert(o2.to_set().contains(o1[0]));
        }
        if o2.len() > 0 {
            assert(o1.to_set().contains(o2[0]));
        }
        assert(o1 =~= o2);
    } else {
        assert(o2.to_set().contains(o1[0]));
        assert(o1.to_set().contains(o2[0]));
        let j2 = choose|j: int| 0 <= j < o2.len() && o2[j] == o1[0];
        let j1 = choose|j: int| 0 <= j < o1.len() && o1[j] == o2[0];
        assert(o1[0] <= o1[j1]);
        assert(o2[0] <= o2[j2]);
        lemma_sorted_drop_first(o1);
        lemma_sorted_drop_first(o2);
        lemma_sorted_set_unique(o1.drop_first(), o2.drop_first());
        assert(o1 =~= seq![o1[0]] + o1.drop_first());
        assert(o2 =~= seq![o2[0]] + o2.drop_first());
    }
}

/// The text of a type does not depend on how its ids were gathered: any two
/// ascending lists of its distinct ids name its variables alike.
pub proof fn lemma_printing_deterministic(t: MonoType, o1: Seq<usize>, o2: Seq<usize>)
    requires
        is_sorted_set_of(o1, t.var_list()),
        is_sorted_set_of(o2, t.var_list()),
    ensures
        show(t, o1) == show(t, o2),
{
    lemma_sorted_set_unique(o1, o2);
}

/// Relies on String::push: appends one char.
#[verifier::external_body]
pub(crate) fn push_char(s: &mut String, c: char)
    ensures
        final(s)@ == old(s)@.push(c),
{
    s.push(c)
}

fn letter_exec(d: usize) -> (c: char)
    requires
        d < 26,
    ensures
        c == letter(d as nat),
{
    (97u8 + d as u8) as char
}

fn push_name(n: usize, out: &mut String)
    ensures
        final(out)@ == old(out)@ + var_name(n as nat),
    decreases n,
{
    if n < 26 {
        push_char(out, letter_exec(n));
    } else {
        push_name(n / 26 - 1, out);
        push_char(out, letter_exec(n % 26));
        assert(old(out)@ + var_name((n / 26 - 1) as nat) + seq![letter((n % 26) as nat)] =~= old(
            out,
        )@ + var_name(n as nat));
    }
}

fn push_arrow(out: &mut String)
    ensures
        final(out)@ == old(out)@ + arrow(),
{
    push_char(out, ' ');
    push_char(out, '-');
    push_char(out, '>');
    push_char(out, ' ');
    assert(final(out)@ =~= old(out)@ + arrow());
}

fn position(order: &Vec<usize>, k: usize) -> (r: usize)
    ensures
        r == name_index(order@, k),
{
    let mut i: usize = 0;
    while i < order.len()
        invariant
            i <= order@.len(),
            forall|j: int| 0 <= j < i ==> order@[j] != k,
        decreases order@.len() - i,
    {
        if order[i] == k {
            proof {
                lemma_first_index(order@, k, i as int);
            }
            return i;
        }
        i = i + 1;
    }
    proof {
        lemma_first_index(order@, k, i as int);
    }
    0
}

fn contains_id(v: &Vec<usize>, x: usize) -> (r: bool)
    ensures
        r == v@.contains(x),
{
    let mut i: usize = 0;
    while i < v.len()
        invariant
            i <= v@.len(),
            forall|j: int| 0 <= j < i ==> v@[j] != x,
        decreases v@.len() - i,
    {
        if v[i] == x {
            return true;
        }
        i = i + 1;
    }
    false
}

fn show_into(t: &MonoType, order: &Vec<usize>, out: &mut String)
    ensures
        final(out)@ == old(out)@ + show(*t, order@),
    decreases t,
{
    match t {
        MonoType::Bool => {
            push_char(out, 'B');
            push_char(out, 'o');
            push_char(out, 'o');
            push_char(out, 'l');
            assert(final(out)@ =~= old(out)@ + show(*t, order@));
        },
        MonoType::Func { l, r } => {
            let paren = match &**l {
                MonoType::Func { .. } => true,
                _ => false,
            };
            if paren {
                push_char(out, '(');
            }
            let ghost o1 = out@;
            show_into(l, order, out);
            if paren {
                push_char(out, ')');
            }
            let ghost o2 = out@;
            push_arrow(out);
            show_into(r, order, out);
            proof {
                let (sl, sr) = (show(**l, order@), show(**r, order@));
                if paren {
                    assert(out@ =~= old(out)@ + (seq!['('] + sl + seq![')'] + arrow() + sr));
                } else {
                    assert(out@ =~= old(out)@ + (sl + arrow() + sr));
                }
            }
        },
        MonoType::Var { tvar } => {
            push_char(out, '\'');
            let p = position(order, *tvar);
            push_name(p, out);
            assert(out@ =~= old(out)@ + show(*t, order@));
        },
    }
}

proof fn lemma_to_set_push(s: Seq<usize>, x: usize)
    ensures
        s.push(x).to_set() == s.to_set().insert(x),
{
    assert forall|a: usize| s.push(x).to_set().contains(a) == s.to_set().insert(x).contains(a) by {
        if s.push(x).to_set().contains(a) && a != x {
            let i = choose|i: int| 0 <= i < s.push(x).len() && s.push(x)[i] == a;
            assert(s[i] == a);
        }
        if s.to_set().contains(a) {
            let i = choose|i: int| 0 <= i < s.len() && s[i] == a;
            assert(s.push(x)[i] == a);
        }
        if a == x {
            assert(s.push(x)[s.len() as int] == a);
        }
    }
    assert(s.push(x).to_set() =~= s.to_set().insert(x));
}

/// Adds `x` to the ascending list `v` of distinct ids, unless present.
fn insert_sorted(v: &mut Vec<usize>, x: usize)
    requires
        strictly_sorted(old(v)@),
    ensures
        strictly_sorted(final(v)@),
        final(v)@.to_set() == old(v)@.to_set().insert(x),
{
    let mut p: usize = 0;
    while p < v.len() && v[p] < x
        invariant
            p <= v@.len(),
            v@ == old(v)@,
            forall|i: int| 0 <= i < p ==> v@[i] < x,
        decreases v@.len() - p,
    {
        p = p + 1;
    }
    if p < v.len() && v[p] == x {
        assert(v@.to_set().insert(x) =~= v@.to_set()) by {
            assert(v@.to_set().contains(x));
        }
        return;
    }
    let ghost s = v@;
    v.insert(p, x);
    assert forall|i: int, j: int| 0 <= i < j < v@.len() implies v@[i] < v@[j] by {
        if j < p {
        } else if j == p {
        } else if i < p {
            assert(v@[j] == s[j - 1]);
            assert(s[p as int] > x || p == s.len());
        } else if i == p {
            assert(v@[j] == s[j - 1]);
            assert(s[p as int] >= x);
            assert(s[p as int] != x);
            assert(s[j - 1] >= s[p as int]);
        } else {
        }
    }
    assert forall|a: usize| v@.to_set().contains(a) == s.to_set().insert(x).contains(a) by {
        if v@.to_set().contains(a) && a != x {
            let i = choose|i: int| 0 <= i < v@.len() && v@[i] == a;
            if i < p {
                assert(s[i] == a);
            } else {
                assert(s[i - 1] == a);
            }
        }
        if s.to_set().contains(a) {
            let i = choose|i: int| 0 <= i < s.len() && s[i] == a;
            if i < p {
                assert(v@[i] == a);
            } else {
                assert(v@[i + 1] == a);
            }
        }
        if a == x {
            assert(v@[p as int] == a);
        }
    }
    assert(v@.to_set() =~= s.to_set().insert(x));
}

/// The distinct ids of `ids`, ascending.
fn sorted_set(ids: &Vec<usize>) -> (r: Vec<usize>)
    ensures
        is_sorted_set_of(r@, ids@),
{
    let mut r: Vec<usize> = Vec::new();
    let mut k: usize = 0;
    assert(ids@.subrange(0, 0).to_set() =~= r@.to_set());
    while k < ids.len()
        invariant
            k <= ids@.len(),
            strictly_sorted(r@),
            r@.to_set() == ids@.subrange(0, k as int).to_set(),
        decreases ids@.len() - k,
    {
        insert_sorted(&mut r, ids[k]);
        proof {
            assert(ids@.subrange(0, k + 1) =~= ids@.subrange(0, k as int).push(ids@[k as int]));
            lemma_to_set_push(ids@.subrange(0, k as int), ids@[k as int]);
        }
        k = k + 1;
    }
    assert(ids@.subrange(0, k as int) =~= ids@);
    r
}

impl MonoType {
    /// The type as text, its variables named by ascending id. Variables are
    /// printed as they stand; `TypeContext::type_to_string` follows bound ones.
    pub fn to_string(&self) -> (r: String)
        ensures
            exists|order: Seq<usize>|
                is_sorted_set_of(order, self.var_list()) && r@ == show(*self, order),
    {
        let mut ids: Vec<usize> = Vec::new();
        self.collect_vars(&mut ids);
        assert(ids@ =~= self.var_list());
        let order = sorted_set(&ids);
        let mut out = String::new();
        show_into(self, &order, &mut out);
        assert(out@ =~= show(*self, order@));
        out
    }
}

impl TypeContext {
    /// The type as text, bound variables followed to what they are bound to:
    /// the text of its resolution.
    pub fn type_to_string(&self, t: &MonoType) -> (r: String)
        ensures
            exists|order: Seq<usize>|
                is_sorted_set_of(order, resolve(self.cells(), *t).var_list()) && r@ == show(
                    resolve(self.cells(), *t),
                    order,
                ),
    {
        self.resolve(t).to_string()
    }
}

impl PolyType {
    /// The scheme as text. The quantified variables are named `a, b, ...`
    /// in scheme order; the type's other variables follow, by ascending id.
    pub fn to_string(&self) -> (r: String)
        ensures
            exists|rest: Seq<usize>|
                strictly_sorted(rest) && rest.to_set() == self.typ.var_list().to_set().difference(
                    self.tvar_ids@.to_set(),
                ) && r@ == show_scheme(self.tvar_ids@.len(), self.typ, self.tvar_ids@ + rest),
    {
        let mut ids: Vec<usize> = Vec::new();
        self.typ.collect_vars(&mut ids);
        assert(ids@ =~= self.typ.var_list());
        let sorted = sorted_set(&ids);
        let ghost q = self.tvar_ids@.to_set();
        let mut rest: Vec<usize> = Vec::new();
        let mut i: usize = 0;
        assert(sorted@.subrange(0, 0).to_set().difference(q) =~= rest@.to_set());
        while i < sorted.len()
            invariant
                i <= sorted@.len(),
                strictly_sorted(sorted@),
                q == self.tvar_ids@.to_set(),
                strictly_sorted(rest@),
                i < sorted@.len() ==> forall|a: int| 0 <= a < rest@.len() ==> rest@[a] < sorted@[i as int],
                rest@.to_set() == sorted@.subrange(0, i as int).to_set().difference(q),
            decreases sorted@.len() - i,
        {
            let x = sorted[i];
            let ghost before = rest@;
            proof {
                assert(sorted@.subrange(0, i + 1) =~= sorted@.subrange(0, i as int).push(x));
                lemma_to_set_push(sorted@.subrange(0, i as int), x);
            }
            if !contains_id(&self.tvar_ids, x) {
                rest.push(x);
                proof {
                    lemma_to_set_push(before, x);
                    assert(rest@.to_set() =~= sorted@.subrange(0, i + 1).to_set().difference(q));
                }
            } else {
                assert(rest@.to_set() =~= sorted@.subrange(0, i + 1).to_set().difference(q));
            }
            i = i + 1;
        }
        assert(sorted@.subrange(0, i as int) =~= sorted@);
        let mut order: Vec<usize> = Vec::new();
        let mut k: usize = 0;
        while k < self.tvar_ids.len()
            invariant
                k <= self.tvar_ids@.len(),
                order@ == self.tvar_ids@.subrange(0, k as int),
            decreases self.tvar_ids@.len() - k,
        {
            order.push(self.tvar_ids[k]);
            assert(self.tvar_ids@.subrange(0, k + 1) =~= self.tvar_ids@.subrange(0, k as int).push(
                self.tvar_ids@[k as int],
            ));
            k = k + 1;
        }
        let mut j: usize = 0;
        while j < rest.len()
            invariant
                j <= rest@.len(),
                order@ == self.tvar_ids@ + rest@.subrange(0, j as int),
            decreases rest@.len() - j,
        {
            order.push(rest[j]);
            assert(rest@.subrange(0, j + 1) =~= rest@.subrange(0, j as int).push(rest@[j as int]));
            j = j + 1;
        }
        assert(rest@.subrange(0, j as int) =~= rest@);
        let mut out = String::new();
        let ghost pre = seq!['f', 'o', 'r', 'a', 'l', 'l', ' '];
        push_char(&mut out, 'f');
        push_char(&mut out, 'o');
        push_char(&mut out, 'r');
        push_char(&mut out, 'a');
        push_char(&mut out, 'l');
        push_char(&mut out, 'l');
        push_char(&mut out, ' ');
        assert(out@ =~= pre + scheme_letters(0));
        let n = self.tvar_ids.len();
        let mut m: usize = 0;
        while m < n
            invariant
                m <= n,
                out@ == pre + scheme_letters(m as nat),
            decreases n - m,
        {
            if m > 0 {
                push_char(&mut out, ',');
                push_char(&mut out, ' ');
            }
            push_name(m, &mut out);
            assert(out@ =~= pre + scheme_letters((m + 1) as nat));
            m = m + 1;
        }
        push_char(&mut out, '.');
        push_char(&mut out, ' ');
        show_into(&self.typ, &order, &mut out);
        assert(out@ =~= show_scheme(self.tvar_ids@.len(), self.typ, self.tvar_ids@ + rest@));
        out
    }
}

} // verus!
