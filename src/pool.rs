use crate::ast::{
    binding_views, subterms, subterms_all, term_ref_views, SpecSort, SpecTerm, Sort, Term, Terminal,
};
use vstd::prelude::*;

verus! {

/// The replacement of the first pair whose key is `t`.
pub open spec fn lookup(subs: Seq<(SpecTerm, SpecTerm)>, t: SpecTerm) -> Option<SpecTerm>
    decreases subs.len(),
{
    if subs.len() == 0 {
        None
    } else if subs[0].0 == t {
        Some(subs[0].1)
    } else {
        lookup(subs.skip(1), t)
    }
}

/// The names that a list of bindings introduces.
pub open spec fn binding_names(bs: Seq<(Seq<char>, SpecSort)>) -> Seq<Seq<char>> {
    Seq::new(bs.len(), |i: int| bs[i].0)
}

/// `t` with every free occurrence of a variable that is a key of `subs` replaced by its value;
/// a quantifier shadows the keys whose variable name it binds, and `shadowed` holds the names
/// bound around `t`.
pub open spec fn substitute(t: SpecTerm, subs: Seq<(SpecTerm, SpecTerm)>, shadowed: Seq<Seq<char>>) -> SpecTerm
    decreases t, 0nat,
{
    match t {
        SpecTerm::Var(name, _) => if !shadowed.contains(name) && lookup(subs, t) is Some {
            lookup(subs, t)->0
        } else {
            t
        },
        SpecTerm::Op(op, args) => SpecTerm::Op(op, substitute_all(args, subs, shadowed)),
        SpecTerm::App(f, args) => SpecTerm::App(
            Box::new(substitute(*f, subs, shadowed)),
            substitute_all(args, subs, shadowed),
        ),
        SpecTerm::Quant(q, bs, body) => SpecTerm::Quant(
            q,
            bs,
            Box::new(substitute(*body, subs, shadowed + binding_names(bs))),
        ),
        _ => t,
    }
}

/// Substitution in each term of a sequence.
pub open spec fn substitute_all(
    ts: Seq<SpecTerm>,
    subs: Seq<(SpecTerm, SpecTerm)>,
    shadowed: Seq<Seq<char>>,
) -> Seq<SpecTerm>
    decreases ts, 1nat,
{
    Seq::new(
        ts.len(),
        |i: int|
            if 0 <= i < ts.len() {
                substitute(ts[i], subs, shadowed)
            } else {
                SpecTerm::String(Seq::empty())
            },
    )
}

/// The models of substitution pairs.
pub open spec fn substitution_views(subs: Seq<(Term, Term)>) -> Seq<(SpecTerm, SpecTerm)> {
    Seq::new(subs.len(), |i: int| (subs[i].0@, subs[i].1@))
}

/// The models of a list of names.
pub open spec fn name_views(names: Seq<String>) -> Seq<Seq<char>> {
    Seq::new(names.len(), |i: int| names[i]@)
}

fn find_replacement<'a>(subs: &'a Vec<(Term, Term)>, t: &Term) -> (r: Option<&'a Term>)
    ensures
        r is None <==> lookup(substitution_views(subs@), t@) is None,
        r matches Some(v) ==> lookup(substitution_views(subs@), t@) == Some(v@),
{
    let ghost sv = substitution_views(subs@);
    let mut i: usize = 0;
    assert(sv.skip(0) =~= sv);
    while i < subs.len()
        invariant
            i <= subs@.len(),
            sv == substitution_views(subs@),
            lookup(sv, t@) == lookup(sv.skip(i as int), t@),
        decreases subs@.len() - i,
    {
        assert(sv.skip(i as int)[0] == (subs@[i as int].0@, subs@[i as int].1@));
        if subs[i].0.equals(t) {
            return Some(&subs[i].1);
        }
        assert(sv.skip(i as int).skip(1) =~= sv.skip(i + 1));
        i = i + 1;
    }
    None
}

fn is_shadowed(shadowed: &Vec<String>, name: &String) -> (r: bool)
    ensures
        r == name_views(shadowed@).contains(name@),
{
    let ghost nv = name_views(shadowed@);
    let mut i: usize = 0;
    while i < shadowed.len()
        invariant
            i <= shadowed@.len(),
            nv == name_views(shadowed@),
            forall|j: int| 0 <= j < i ==> nv[j] != name@,
        decreases shadowed@.len() - i,
    {
        if shadowed[i] == *name {
            assert(nv[i as int] == name@);
            return true;
        }
        i = i + 1;
    }
    false
}

#[verifier::loop_isolation(false)]
fn substitute_rec(t: &Term, subs: &Vec<(Term, Term)>, shadowed: &Vec<String>) -> (r: Term)
    ensures
        r@ == substitute(t@, substitution_views(subs@), name_views(shadowed@)),
    decreases t, 0nat,
{
    broadcast use Term::lemma_views;

    let ghost sv = substitution_views(subs@);
    let ghost sh = name_views(shadowed@);
    match t {
        Term::Terminal(Terminal::Var(name, _)) => {
            if !is_shadowed(shadowed, name) {
                if let Some(v) = find_replacement(subs, t) {
                    return v.duplicate();
                }
            }
            t.duplicate()
        },
        Term::Op(op, args) => {
            let new_args = substitute_rec_all(args, subs, shadowed);
            assert(Term::views(new_args@) =~= substitute_all(Term::views(args@), sv, sh));
            Term::Op(*op, new_args)
        },
        Term::App(f, args) => {
            let new_f = substitute_rec(f, subs, shadowed);
            let new_args = substitute_rec_all(args, subs, shadowed);
            assert(Term::views(new_args@) =~= substitute_all(Term::views(args@), sv, sh));
            Term::App(Box::new(new_f), new_args)
        },
        Term::Quant(q, bs, body) => {
            let mut inner: Vec<String> = Vec::new();
            let mut i: usize = 0;
            while i < shadowed.len()
                invariant
                    i <= shadowed@.len(),
                    name_views(inner@) =~= sh.subrange(0, i as int),
                decreases shadowed@.len() - i,
            {
                let ghost before = name_views(inner@);
                let name = shadowed[i].clone();
                inner.push(name);
                assert(name_views(inner@) =~= before.push(shadowed@[i as int]@));
                i = i + 1;
            }
            let ghost bn = binding_names(binding_views(bs@));
            let mut j: usize = 0;
            while j < bs.len()
                invariant
                    j <= bs@.len(),
                    sh.len() == shadowed@.len(),
                    name_views(inner@) =~= sh + bn.subrange(0, j as int),
                decreases bs@.len() - j,
            {
                assert(binding_views(bs@)[j as int].0 == bs@[j as int].0@);
                assert(bn[j as int] == bs@[j as int].0@);
                let ghost before = name_views(inner@);
                let name = bs[j].0.clone();
                inner.push(name);
                assert(name_views(inner@) =~= before.push(bs@[j as int].0@));
                assert(bn.subrange(0, j + 1) =~= bn.subrange(0, j as int).push(bn[j as int]));
                j = j + 1;
            }
            assert(bn.subrange(0, bs@.len() as int) =~= bn);
            let new_body = substitute_rec(body, subs, &inner);
            Term::Quant(*q, crate::ast::duplicate_bindings(bs), Box::new(new_body))
        },
        _ => t.duplicate(),
    }
}

fn substitute_rec_all(ts: &Vec<Term>, subs: &Vec<(Term, Term)>, shadowed: &Vec<String>) -> (r: Vec<
    Term,
>)
    ensures
        r@.len() == ts@.len(),
        forall|i: int|
            0 <= i < ts@.len() ==> #[trigger] r@[i]@ == substitute(
                ts@[i]@,
                substitution_views(subs@),
                name_views(shadowed@),
            ),
    decreases ts, 1nat,
{
    let mut r: Vec<Term> = Vec::new();
    let mut i: usize = 0;
    while i < ts.len()
        invariant
            i <= ts@.len(),
            r@.len() == i,
            forall|j: int|
                0 <= j < i ==> #[trigger] r@[j]@ == substitute(
                    ts@[j]@,
                    substitution_views(subs@),
                    name_views(shadowed@),
                ),
        decreases ts@.len() - i,
    {
        assert(decreases_to!(ts => ts@[i as int]));
        r.push(substitute_rec(&ts[i], subs, shadowed));
        i = i + 1;
    }
    r
}

/// `root` with every free occurrence of each key variable replaced by its value, where a
/// quantifier that binds the key's name shadows it.
pub fn apply_substitutions(root: &Term, subs: &Vec<(Term, Term)>) -> (r: Term)
    ensures
        r@ == substitute(root@, substitution_views(subs@), seq![]),
{
    let shadowed: Vec<String> = Vec::new();
    assert(name_views(shadowed@) =~= Seq::<Seq<char>>::empty());
    substitute_rec(root, subs, &shadowed)
}


/// Whether the variable term `v` occurs free in `t`: it is `t`, or occurs free in an argument or
/// the function, or in the body of a quantifier that does not bind its name.
pub open spec fn occurs_free(v: SpecTerm, t: SpecTerm) -> bool
    decreases t, 0nat,
{
    match t {
        SpecTerm::Var(_, _) => t == v,
        SpecTerm::Op(_, args) => occurs_free_in_any(v, args),
        SpecTerm::App(f, args) => occurs_free(v, *f) || occurs_free_in_any(v, args),
        SpecTerm::Quant(_, bs, body) => !(v is Var && binding_names(bs).contains(v->Var_0))
            && occurs_free(v, *body),
        _ => false,
    }
}

/// Whether `v` occurs free in some term of `ts`.
pub open spec fn occurs_free_in_any(v: SpecTerm, ts: Seq<SpecTerm>) -> bool
    decreases ts, 1nat,
{
    ts.len() > 0 && (occurs_free_in_any(v, ts.subrange(0, ts.len() - 1)) || occurs_free(
        v,
        ts[ts.len() - 1],
    ))
}

/// The free variables of a term.
pub open spec fn free_vars(t: SpecTerm) -> Set<SpecTerm> {
    Set::new(|v: SpecTerm| v is Var && occurs_free(v, t))
}

/// Whether the variable `name` of sort `sort` occurs free in `t`.
#[verifier::loop_isolation(false)]
pub fn occurs_free_var(name: &String, sort: &Sort, t: &Term) -> (r: bool)
    ensures
        r == occurs_free(SpecTerm::Var(name@, sort@), t@),
    decreases t, 0nat, 0nat,
{
    broadcast use Term::lemma_views;

    let ghost v = SpecTerm::Var(name@, sort@);
    match t {
        Term::Terminal(Terminal::Var(n, s)) => *n == *name && s.equals(sort),
        Term::Terminal(_) => false,
        Term::Op(_, args) => occurs_free_var_any(name, sort, args),
        Term::App(f, args) => occurs_free_var(name, sort, f) || occurs_free_var_any(name, sort, args),
        Term::Quant(q, bs, body) => {
            let ghost bn = binding_names(binding_views(bs@));
            assert(t@ == SpecTerm::Quant(*q, binding_views(bs@), Box::new(body@)));
            let mut i: usize = 0;
            while i < bs.len()
                invariant
                    i <= bs@.len(),
                    bn == binding_names(binding_views(bs@)),
                    forall|j: int| 0 <= j < i ==> bn[j] != name@,
                decreases bs@.len() - i,
            {
                assert(binding_views(bs@)[i as int].0 == bs@[i as int].0@);
                assert(bn[i as int] == bs@[i as int].0@);
                if bs[i].0 == *name {
                    assert(bn.contains(name@));
                    return false;
                }
                i = i + 1;
            }
            occurs_free_var(name, sort, body)
        },
    }
}

fn occurs_free_var_any(name: &String, sort: &Sort, ts: &Vec<Term>) -> (r: bool)
    ensures
        r == occurs_free_in_any(SpecTerm::Var(name@, sort@), Term::views(ts@)),
    decreases ts, 1nat, ts@.len() + 1,
{
    let r = occurs_free_var_prefix(name, sort, ts, ts.len());
    assert(Term::views(ts@).subrange(0, ts@.len() as int) =~= Term::views(ts@));
    r
}

fn occurs_free_var_prefix(name: &String, sort: &Sort, ts: &Vec<Term>, n: usize) -> (r: bool)
    requires
        n <= ts@.len(),
    ensures
        r == occurs_free_in_any(SpecTerm::Var(name@, sort@), Term::views(ts@).subrange(0, n as int)),
    decreases ts, 1nat, n,
{
    broadcast use Term::lemma_views;

    let ghost xs = Term::views(ts@).subrange(0, n as int);
    if n == 0 {
        return false;
    }
    assert(xs.subrange(0, n - 1) =~= Term::views(ts@).subrange(0, n - 1));
    assert(decreases_to!(ts => ts@[n - 1]));
    occurs_free_var_prefix(name, sort, ts, n - 1) || occurs_free_var(name, sort, &ts[n - 1])
}


/// The pool after interning `t`, and the handle of `t`: an equal term already in the pool keeps
/// its handle; a new term is appended.
pub open spec fn intern_spec(terms: Seq<SpecTerm>, t: SpecTerm) -> (Seq<SpecTerm>, int) {
    if terms.contains(t) {
        (terms, choose|i: int| 0 <= i < terms.len() && terms[i] == t)
    } else {
        (terms.push(t), terms.len() as int)
    }
}

/// An intern table: each structurally distinct term has one handle, its index in the table.
pub struct TermPool {
    terms: Vec<Term>,
}

impl TermPool {
    /// The terms of the pool, by handle.
    pub closed spec fn contents(&self) -> Seq<SpecTerm> {
        Term::views(self.terms@)
    }

    /// No term is held twice.
    pub open spec fn wf(&self) -> bool {
        self.contents().no_duplicates()
    }

    pub fn new() -> (r: TermPool)
        ensures
            r.wf(),
            r.contents() == Seq::<SpecTerm>::empty(),
    {
        let r = TermPool { terms: Vec::new() };
        assert(r.contents() =~= Seq::<SpecTerm>::empty());
        r
    }

    /// The number of distinct terms in the pool.
    pub fn len(&self) -> (r: usize)
        ensures
            r == self.contents().len(),
    {
        broadcast use Term::lemma_views;

        self.terms.len()
    }

    /// The term with handle `h`.
    pub fn get(&self, h: usize) -> (r: &Term)
        requires
            h < self.contents().len(),
        ensures
            r@ == self.contents()[h as int],
    {
        broadcast use Term::lemma_views;

        &self.terms[h]
    }

    /// The handle of `term`, adding it to the pool when no equal term is there.
    pub fn intern(&mut self, term: Term) -> (h: usize)
        requires
            old(self).wf(),
        ensures
            final(self).wf(),
            (final(self).contents(), h as int) == intern_spec(old(self).contents(), term@),
    {
        broadcast use Term::lemma_views;

        let ghost before = self.contents();
        let mut i: usize = 0;
        while i < self.terms.len()
            invariant
                i <= self.terms@.len(),
                before == Term::views(self.terms@),
                before.no_duplicates(),
                forall|j: int| 0 <= j < i ==> before[j] != term@,
            decreases self.terms@.len() - i,
        {
            assert(before[i as int] == self.terms@[i as int]@);
            if self.terms[i].equals(&term) {
                assert(before[i as int] == term@);
                assert(before.contains(term@));
                let ghost k = choose|k: int| 0 <= k < before.len() && before[k] == term@;
                assert(before[k] == before[i as int]);
                assert(k == i);
                return i;
            }
            i = i + 1;
        }
        let h = self.terms.len();
        self.terms.push(term);
        assert(self.contents() =~= before.push(term@));
        h
    }
}

/// Interning: the handles of two terms interned in turn into a pool are equal exactly when the
/// terms are structurally equal.
pub proof fn lemma_intern_handles(pool: Seq<SpecTerm>, t1: SpecTerm, t2: SpecTerm)
    requires
        pool.no_duplicates(),
    ensures
        ({
            let (pool1, h1) = intern_spec(pool, t1);
            let (pool2, h2) = intern_spec(pool1, t2);
            (h1 == h2) == (t1 == t2)
        }),
{
    let (pool1, h1) = intern_spec(pool, t1);
    let (pool2, h2) = intern_spec(pool1, t2);
    assert(0 <= h1 < pool1.len() && pool1[h1] == t1);
    assert(pool1.no_duplicates()) by {
        if !pool.contains(t1) {
            assert forall|a: int, b: int| 0 <= a < b < pool1.len() implies pool1[a] != pool1[b] by {
                if b == pool.len() {
                    assert(pool1[a] == pool[a]);
                }
            }
        }
    }
    assert(0 <= h2 < pool2.len() && pool2[h2] == t2);
    assert(pool2[h1] == t1);
    if t1 == t2 {
        assert(pool1.contains(t2));
    }
}

/// The first pair with key `t` gives the replacement.
proof fn lemma_lookup_found(subs: Seq<(SpecTerm, SpecTerm)>, t: SpecTerm)
    requires
        lookup(subs, t) is Some,
    ensures
        exists|i: int| 0 <= i < subs.len() && subs[i].0 == t && #[trigger] subs[i].1 == lookup(subs, t)->0,
    decreases subs.len(),
{
    if subs[0].0 != t {
        lemma_lookup_found(subs.skip(1), t);
        let i = choose|i: int| 0 <= i < subs.skip(1).len() && subs.skip(1)[i].0 == t && #[trigger] subs.skip(1)[i].1 == lookup(subs.skip(1), t)->0;
        assert(subs[i + 1] == subs.skip(1)[i]);
    } else {
        assert(subs[0].1 == lookup(subs, t)->0);
    }
}

/// Each key is a variable and its value has the variable's sort.
pub open spec fn sort_preserving(subs: Seq<(SpecTerm, SpecTerm)>) -> bool {
    forall|i: int|
        0 <= i < subs.len() ==> (#[trigger] subs[i]).0 is Var && subs[i].1.sort() == subs[i].0->Var_1
}

proof fn lemma_substitute_sort(t: SpecTerm, subs: Seq<(SpecTerm, SpecTerm)>, shadowed: Seq<Seq<char>>)
    requires
        sort_preserving(subs),
    ensures
        substitute(t, subs, shadowed).sort() == t.sort(),
    decreases t,
{
    match t {
        SpecTerm::Var(name, s) => {
            if !shadowed.contains(name) && lookup(subs, t) is Some {
                lemma_lookup_found(subs, t);
                let i = choose|i: int| 0 <= i < subs.len() && subs[i].0 == t && #[trigger] subs[i].1 == lookup(subs, t)->0;
                assert(subs[i].1.sort() == subs[i].0->Var_1);
            }
        },
        SpecTerm::Op(op, args) => {
            let new_args = substitute_all(args, subs, shadowed);
            if args.len() >= 1 {
                assert(decreases_to!(t => args[0]));
                lemma_substitute_sort(args[0], subs, shadowed);
                assert(new_args[0] == substitute(args[0], subs, shadowed));
            }
            if args.len() >= 2 {
                assert(decreases_to!(t => args[1]));
                lemma_substitute_sort(args[1], subs, shadowed);
                assert(new_args[1] == substitute(args[1], subs, shadowed));
            }
        },
        SpecTerm::App(f, args) => {
            lemma_substitute_sort(*f, subs, shadowed);
        },
        _ => {},
    }
}

/// Substitution preserves sorts: when each key of `subs` is a variable whose value has the
/// variable's sort, applying `subs` to `t` leaves its sort unchanged.
pub proof fn lemma_substitution_preserves_sort(t: SpecTerm, subs: Seq<(SpecTerm, SpecTerm)>)
    requires
        sort_preserving(subs),
    ensures
        substitute(t, subs, seq![]).sort() == t.sort(),
{
    lemma_substitute_sort(t, subs, seq![]);
}


proof fn lemma_contains_concat(a: Seq<SpecTerm>, b: Seq<SpecTerm>, x: SpecTerm)
    ensures
        (a + b).contains(x) == (a.contains(x) || b.contains(x)),
{
    if a.contains(x) {
        let k = choose|k: int| 0 <= k < a.len() && a[k] == x;
        assert((a + b)[k] == x);
    }
    if b.contains(x) {
        let k = choose|k: int| 0 <= k < b.len() && b[k] == x;
        assert((a + b)[a.len() + k] == x);
    }
    if (a + b).contains(x) {
        let k = choose|k: int| 0 <= k < (a + b).len() && (a + b)[k] == x;
        if k < a.len() {
            assert(a[k] == x);
        } else {
            assert(b[k - a.len()] == x);
        }
    }
}

proof fn lemma_contains_push(a: Seq<SpecTerm>, y: SpecTerm, x: SpecTerm)
    ensures
        a.push(y).contains(x) == (a.contains(x) || x == y),
{
    if a.contains(x) {
        let k = choose|k: int| 0 <= k < a.len() && a[k] == x;
        assert(a.push(y)[k] == x);
    }
    if x == y {
        assert(a.push(y)[a.len() as int] == x);
    }
    if a.push(y).contains(x) {
        let k = choose|k: int| 0 <= k < a.push(y).len() && a.push(y)[k] == x;
        if k < a.len() {
            assert(a[k] == x);
        }
    }
}

/// A variable that occurs free in a term is one of its subterms.
proof fn lemma_free_in_subterms(v: SpecTerm, t: SpecTerm)
    requires
        occurs_free(v, t),
    ensures
        subterms(t).contains(v),
    decreases t, 0nat,
{
    match t {
        SpecTerm::Var(_, _) => {
            assert(subterms(t)[0] == t);
        },
        SpecTerm::Op(_, args) => {
            lemma_free_in_subterms_all(v, args);
            lemma_contains_concat(seq![t], subterms_all(args), v);
        },
        SpecTerm::App(f, args) => {
            if occurs_free(v, *f) {
                lemma_free_in_subterms(v, *f);
            } else {
                lemma_free_in_subterms_all(v, args);
            }
            lemma_contains_concat(subterms(*f), subterms_all(args), v);
            lemma_contains_concat(seq![t], subterms(*f) + subterms_all(args), v);
        },
        SpecTerm::Quant(_, _, body) => {
            lemma_free_in_subterms(v, *body);
            lemma_contains_concat(seq![t], subterms(*body), v);
        },
        _ => {},
    }
}

proof fn lemma_free_in_subterms_all(v: SpecTerm, ts: Seq<SpecTerm>)
    requires
        occurs_free_in_any(v, ts),
    ensures
        subterms_all(ts).contains(v),
    decreases ts, 1nat,
{
    let pre = ts.subrange(0, ts.len() - 1);
    let last = ts[ts.len() - 1];
    if occurs_free_in_any(v, pre) {
        lemma_free_in_subterms_all(v, pre);
    } else {
        lemma_free_in_subterms(v, last);
    }
    lemma_contains_concat(subterms_all(pre), subterms(last), v);
}

/// The free variables of `t`, each once.
pub fn free_variables(t: &Term) -> (r: Vec<Term>)
    ensures
        Term::views(r@).no_duplicates(),
        Term::views(r@).to_set() == free_vars(t@),
{
    broadcast use Term::lemma_views;

    let candidates = t.subterms();
    let ghost sub = subterms(t@);
    let mut result: Vec<Term> = Vec::new();
    let mut i: usize = 0;
    while i < candidates.len()
        invariant
            i <= candidates@.len(),
            term_ref_views(candidates@) == sub,
            Term::views(result@).no_duplicates(),
            forall|x: SpecTerm| #[trigger] Term::views(result@).contains(x) == (sub.subrange(0, i as int).contains(x)
                && x is Var && occurs_free(x, t@)),
        decreases candidates@.len() - i,
    {
        let c = candidates[i];
        assert(sub[i as int] == c@);
        let ghost before = Term::views(result@);
        let keep = match c {
            Term::Terminal(Terminal::Var(name, sort)) => occurs_free_var(name, sort, t),
            _ => false,
        };
        let mut present = false;
        let mut j: usize = 0;
        while j < result.len()
            invariant
                j <= result@.len(),
                before == Term::views(result@),
                present == Term::views(result@).subrange(0, j as int).contains(c@),
            decreases result@.len() - j,
        {
            assert(before.subrange(0, j + 1) =~= before.subrange(0, j as int).push(before[j as int]));
            assert(before[j as int] == result@[j as int]@);
            proof {
                lemma_contains_push(before.subrange(0, j as int), before[j as int], c@);
            }
            if result[j].equals(c) {
                present = true;
            }
            j = j + 1;
        }
        assert(before.subrange(0, before.len() as int) =~= before);
        proof {
            assert(sub.subrange(0, i + 1) =~= sub.subrange(0, i as int).push(c@));
            assert forall|x: SpecTerm| #[trigger] sub.subrange(0, i + 1).contains(x) == (sub.subrange(0, i as int).contains(x) || x == c@) by {
                lemma_contains_push(sub.subrange(0, i as int), c@, x);
            }
        }
        if keep && !present {
            result.push(c.duplicate());
            proof {
                assert(Term::views(result@) =~= before.push(c@));
                assert forall|a: int, b: int| 0 <= a < b < Term::views(result@).len() implies Term::views(result@)[a] != Term::views(result@)[b] by {
                    if b == before.len() {
                        assert(before[a] == Term::views(result@)[a]);
                    }
                }
                assert forall|x: SpecTerm| #[trigger] Term::views(result@).contains(x) == (before.contains(x) || x == c@) by {
                    lemma_contains_push(before, c@, x);
                }
            }
        }
        i = i + 1;
    }
    proof {
        assert(sub.subrange(0, sub.len() as int) =~= sub);
        assert forall|x: SpecTerm| #[trigger] free_vars(t@).contains(x) implies Term::views(result@).contains(x) by {
            lemma_free_in_subterms(x, t@);
        }
        assert(Term::views(result@).to_set() =~= free_vars(t@));
    }
    result
}

} // verus!
