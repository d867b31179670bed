use crate::ast::{group_term_shapes, Operator, SpecTerm, Term};
use crate::commands::{clause_of, premise_views, single_term, ProofArg, ProofCommand, SpecCommand};
use vstd::prelude::*;

pub mod clausification;
pub mod quantifier;

verus! {

/// `Some(())` for `true`, `None` for `false`.
pub fn to_option(b: bool) -> (r: Option<()>)
    ensures
        r is Some <==> b,
{
    match b {
        true => Some(()),
        false => None,
    }
}

/// The unique term of a command: the assumed term, or the only literal of a unit step.
pub fn get_single_term_from_command(command: &ProofCommand) -> (r: Option<&Term>)
    ensures
        r is None <==> single_term(command@) is None,
        r matches Some(t) ==> single_term(command@) == Some(t@),
{
    broadcast use Term::lemma_views;

    match command {
        ProofCommand::Assume(term) => Some(term),
        ProofCommand::Step { clause, .. } => if clause.len() == 1 {
            Some(&clause[0])
        } else {
            None
        },
    }
}

/// `[(not (not (not p))), p]`.
pub open spec fn not_not_holds(c: Seq<SpecTerm>) -> bool {
    c.len() == 2 && c[0] == SpecTerm::not(SpecTerm::not(SpecTerm::not(c[1])))
}

pub fn not_not(conclusion: &[Term], premises: &[&ProofCommand], args: &[ProofArg]) -> (r: Option<
    (),
>)
    ensures
        r is Some <==> not_not_holds(Term::views(conclusion@)),
{
    broadcast use Term::lemma_views, group_term_shapes;

    if conclusion.len() != 2 {
        return None;
    }
    let p = conclusion[0].remove_negation()?.remove_negation()?.remove_negation()?;
    to_option(p.equals(&conclusion[1]))
}


/// `[(not (= p1 p2)), p1, (not p2)]`.
pub open spec fn equiv_pos1_holds(c: Seq<SpecTerm>) -> bool {
    &&& c.len() == 3
    &&& c[2].negated() is Some
    &&& c[0] == SpecTerm::not(SpecTerm::equality(c[1], c[2].negated()->0))
}

pub fn equiv_pos1(conclusion: &[Term], premises: &[&ProofCommand], args: &[ProofArg]) -> (r:
    Option<()>)
    ensures
        r is Some <==> equiv_pos1_holds(Term::views(conclusion@)),
{
    broadcast use Term::lemma_views, group_term_shapes;

    if conclusion.len() != 3 {
        return None;
    }
    let (phi_1, phi_2) = conclusion[0].remove_negation()?.binary(Operator::Equals)?;
    let not_phi_2 = conclusion[2].remove_negation()?;
    to_option(phi_1.equals(&conclusion[1]) && phi_2.equals(not_phi_2))
}

/// `[(not (= p1 p2)), (not p1), p2]`.
pub open spec fn equiv_pos2_holds(c: Seq<SpecTerm>) -> bool {
    &&& c.len() == 3
    &&& c[1].negated() is Some
    &&& c[0] == SpecTerm::not(SpecTerm::equality(c[1].negated()->0, c[2]))
}

pub fn equiv_pos2(conclusion: &[Term], premises: &[&ProofCommand], args: &[ProofArg]) -> (r:
    Option<()>)
    ensures
        r is Some <==> equiv_pos2_holds(Term::views(conclusion@)),
{
    broadcast use Term::lemma_views, group_term_shapes;

    if conclusion.len() != 3 {
        return None;
    }
    let (phi_1, phi_2) = conclusion[0].remove_negation()?.binary(Operator::Equals)?;
    let not_phi_1 = conclusion[1].remove_negation()?;
    to_option(phi_1.equals(not_phi_1) && phi_2.equals(&conclusion[2]))
}

/// `[(= a a)]`.
pub open spec fn eq_reflexive_holds(c: Seq<SpecTerm>) -> bool {
    &&& c.len() == 1
    &&& c[0].binary(Operator::Equals) is Some
    &&& (c[0].binary(Operator::Equals)->0).0 == (c[0].binary(Operator::Equals)->0).1
}

/// The single-literal clause `[(= t t)]` is accepted for every term `t`.
pub proof fn lemma_eq_reflexive_accepts(t: SpecTerm)
    ensures
        eq_reflexive_holds(seq![SpecTerm::equality(t, t)]),
{
}

pub fn eq_reflexive(conclusion: &[Term], premises: &[&ProofCommand], args: &[ProofArg]) -> (r:
    Option<()>)
    ensures
        r is Some <==> eq_reflexive_holds(Term::views(conclusion@)),
{
    broadcast use Term::lemma_views;

    if conclusion.len() == 1 {
        let (a, b) = conclusion[0].binary(Operator::Equals)?;
        to_option(a.equals(b))
    } else {
        None
    }
}

/// One premise `(ite p1 p2 p3)`; the conclusion is `[p1, p3]`.
pub open spec fn ite1_holds(c: Seq<SpecTerm>, premises: Seq<SpecCommand>) -> bool {
    &&& premises.len() == 1
    &&& c.len() == 2
    &&& single_term(premises[0]) matches Some(t) && t.ite_parts() matches Some(parts) && c[0]
        == parts.0 && c[1] == parts.2
}

pub fn ite1(conclusion: &[Term], premises: &[&ProofCommand], args: &[ProofArg]) -> (r: Option<
    (),
>)
    ensures
        r is Some <==> ite1_holds(Term::views(conclusion@), premise_views(premises@)),
{
    broadcast use Term::lemma_views;

    if premises.len() != 1 || conclusion.len() != 2 {
        return None;
    }
    let premise_term = get_single_term_from_command(premises[0])?;
    let (psi_1, _, psi_3) = premise_term.ite_parts()?;
    to_option(psi_1.equals(&conclusion[0]) && psi_3.equals(&conclusion[1]))
}

/// One premise `(ite p1 p2 p3)`; the conclusion is `[(not p1), p2]`.
pub open spec fn ite2_holds(c: Seq<SpecTerm>, premises: Seq<SpecCommand>) -> bool {
    &&& premises.len() == 1
    &&& c.len() == 2
    &&& single_term(premises[0]) matches Some(t) && t.ite_parts() matches Some(parts) && c[0]
        == SpecTerm::not(parts.0) && c[1] == parts.1
}

pub fn ite2(conclusion: &[Term], premises: &[&ProofCommand], args: &[ProofArg]) -> (r: Option<
    (),
>)
    ensures
        r is Some <==> ite2_holds(Term::views(conclusion@), premise_views(premises@)),
{
    broadcast use Term::lemma_views, group_term_shapes;

    if premises.len() != 1 || conclusion.len() != 2 {
        return None;
    }
    let premise_term = get_single_term_from_command(premises[0])?;
    let (psi_1, psi_2, _) = premise_term.ite_parts()?;
    let not_psi_1 = conclusion[0].remove_negation()?;
    to_option(psi_1.equals(not_psi_1) && psi_2.equals(&conclusion[1]))
}


/// The two sides of a literal `(not (= t u))`.
pub open spec fn inequality_sides(t: SpecTerm) -> Option<(SpecTerm, SpecTerm)> {
    match t.negated() {
        Some(u) => u.binary(Operator::Equals),
        None => None,
    }
}

/// The two sides of a literal `(not (= t u))`.
fn get_inequality(t: &Term) -> (r: Option<(&Term, &Term)>)
    ensures
        r is None <==> inequality_sides(t@) is None,
        r matches Some(p) ==> inequality_sides(t@) == Some((p.0@, p.1@)),
{
    t.remove_negation()?.binary(Operator::Equals)
}

/// All literals but the last are inequalities.
pub open spec fn leading_inequalities(c: Seq<SpecTerm>) -> bool {
    forall|i: int| 0 <= i < c.len() - 1 ==> #[trigger] inequality_sides(c[i]) is Some
}

/// `[(not (= t1 u1)), ..., (not (= tn un)), (= (f a1 ... an) (f b1 ... bn))]` where each pair
/// `(ai, bi)` is `(ti, ui)` or `(ui, ti)`.
pub open spec fn eq_congruent_holds(c: Seq<SpecTerm>) -> bool {
    &&& c.len() >= 2
    &&& leading_inequalities(c)
    &&& c.last().binary(Operator::Equals) matches Some(parts) && parts.0 matches SpecTerm::App(
        f,
        fa,
    ) && parts.1 matches SpecTerm::App(g, ga) && f == g && fa.len() == c.len() - 1 && ga.len()
        == c.len() - 1 && forall|i: int|
        0 <= i < c.len() - 1 ==> #[trigger] sides_match(fa[i], ga[i], c[i])
}

/// `(a, b)` are the two sides of the inequality `lit`, in either order.
pub open spec fn sides_match(a: SpecTerm, b: SpecTerm, lit: SpecTerm) -> bool {
    let p = inequality_sides(lit)->0;
    (a == p.0 && b == p.1) || (a == p.1 && b == p.0)
}

#[verifier::loop_isolation(false)]
pub fn eq_congruent(conclusion: &[Term], premises: &[&ProofCommand], args: &[ProofArg]) -> (r:
    Option<()>)
    ensures
        r is Some <==> eq_congruent_holds(Term::views(conclusion@)),
{
    broadcast use Term::lemma_views, group_term_shapes;

    let n = conclusion.len();
    if n < 2 {
        return None;
    }
    let ghost c = Term::views(conclusion@);
    let mut i: usize = 0;
    while i < n - 1
        invariant
            i <= n - 1,
            forall|j: int| 0 <= j < i ==> #[trigger] inequality_sides(c[j]) is Some,
        decreases n - 1 - i,
    {
        assert(c[i as int] == conclusion@[i as int]@);
        if get_inequality(&conclusion[i]).is_none() {
            return None;
        }
        i = i + 1;
    }
    let (left, right) = conclusion[n - 1].binary(Operator::Equals)?;
    match (left, right) {
        (Term::App(f, f_args), Term::App(g, g_args)) => {
            let ghost fa = Term::views(f_args@);
            let ghost ga = Term::views(g_args@);
            assert(left@ == SpecTerm::App(Box::new(f@), fa));
            assert(right@ == SpecTerm::App(Box::new(g@), ga));
            if !f.equals(g) || f_args.len() != n - 1 || g_args.len() != n - 1 {
                return None;
            }
            let mut i: usize = 0;
            while i < n - 1
                invariant
                    i <= n - 1,
                    forall|j: int| 0 <= j < i ==> #[trigger] sides_match(fa[j], ga[j], c[j]),
                decreases n - 1 - i,
            {
                assert(c[i as int] == conclusion@[i as int]@);
                assert(fa[i as int] == f_args@[i as int]@ && ga[i as int] == g_args@[i as int]@);
                let (t, u) = get_inequality(&conclusion[i]).unwrap();
                let (a, b) = (&f_args[i], &g_args[i]);
                if !((a.equals(t) && b.equals(u)) || (a.equals(u) && b.equals(t))) {
                    assert(!sides_match(fa[i as int], ga[i as int], c[i as int]));
                    return None;
                }
                assert(sides_match(fa[i as int], ga[i as int], c[i as int]));
                i = i + 1;
            }
            Some(())
        },
        _ => None,
    }
}

/// The far side of a pair that touches `x`.
pub open spec fn far_side(p: (SpecTerm, SpecTerm), x: SpecTerm) -> SpecTerm {
    if p.0 == x {
        p.1
    } else {
        p.0
    }
}

/// Whether `from` and `to` are joined by a chain of pairs, each used at most once: `from` and
/// `to` are equal, or some pair has `from` as one side and a chain joins its other side to `to`
/// through the remaining pairs.
pub open spec fn chain_exists(from: SpecTerm, to: SpecTerm, pairs: Seq<(SpecTerm, SpecTerm)>) -> bool
    decreases pairs.len(),
{
    from == to || exists|i: int|
        0 <= i < pairs.len() && (#[trigger] pairs[i].0 == from || pairs[i].1 == from)
            && chain_exists(far_side(pairs[i], from), to, pairs.remove(i))
}

/// The models of a sequence of pairs of terms.
pub open spec fn pair_views(ps: Seq<(&Term, &Term)>) -> Seq<(SpecTerm, SpecTerm)> {
    Seq::new(ps.len(), |i: int| (ps[i].0@, ps[i].1@))
}

fn find_chain(from: &Term, to: &Term, pairs: &Vec<(&Term, &Term)>) -> (r: bool)
    ensures
        r == chain_exists(from@, to@, pair_views(pairs@)),
    decreases pairs@.len(),
{
    let ghost ps = pair_views(pairs@);
    if from.equals(to) {
        return true;
    }
    let mut i: usize = 0;
    while i < pairs.len()
        invariant
            i <= pairs@.len(),
            ps == pair_views(pairs@),
            from@ != to@,
            forall|j: int|
                0 <= j < i ==> !((#[trigger] ps[j].0 == from@ || ps[j].1 == from@) && chain_exists(
                    far_side(ps[j], from@),
                    to@,
                    ps.remove(j),
                )),
        decreases pairs@.len() - i,
    {
        let (t, u) = pairs[i];
        let next = if t.equals(from) {
            Some(u)
        } else if u.equals(from) {
            Some(t)
        } else {
            None
        };
        match next {
            Some(other) => {
                let mut rest: Vec<(&Term, &Term)> = Vec::new();
                let mut j: usize = 0;
                while j < pairs.len()
                    invariant
                        j <= pairs@.len(),
                        i < pairs@.len(),
                        rest@.len() == if j <= i {
                            j as int
                        } else {
                            j - 1
                        },
                        forall|m: int| 0 <= m < rest@.len() ==> #[trigger] rest@[m] == pairs@[if m < i {
                            m
                        } else {
                            m + 1
                        }],
                    decreases pairs@.len() - j,
                {
                    if j != i {
                        rest.push(pairs[j]);
                    }
                    j = j + 1;
                }
                assert(pair_views(rest@) =~= ps.remove(i as int));
                assert(far_side(ps[i as int], from@) == other@);
                if find_chain(other, to, &rest) {
                    return true;
                }
            },
            None => {},
        }
        i = i + 1;
    }
    false
}

/// `[(not (= t1 u1)), ..., (not (= tn un)), (= t u)]` with at least one inequality, where a
/// chain of the inequalities, each used at most once and in either direction, joins `t` to `u`.
pub open spec fn eq_transitive_holds(c: Seq<SpecTerm>) -> bool {
    &&& c.len() >= 3
    &&& leading_inequalities(c)
    &&& c.last().binary(Operator::Equals) matches Some(parts) && chain_exists(
        parts.0,
        parts.1,
        Seq::new((c.len() - 1) as nat, |i: int| inequality_sides(c[i])->0),
    )
}

#[verifier::loop_isolation(false)]
pub fn eq_transitive(conclusion: &[Term], premises: &[&ProofCommand], args: &[ProofArg]) -> (r:
    Option<()>)
    ensures
        r is Some <==> eq_transitive_holds(Term::views(conclusion@)),
{
    broadcast use Term::lemma_views;

    let n = conclusion.len();
    if n < 3 {
        return None;
    }
    let ghost c = Term::views(conclusion@);
    let ghost expected = Seq::new((c.len() - 1) as nat, |i: int| inequality_sides(c[i])->0);
    let (t, u) = conclusion[n - 1].binary(Operator::Equals)?;
    let mut pairs: Vec<(&Term, &Term)> = Vec::new();
    let mut i: usize = 0;
    while i < n - 1
        invariant
            i <= n - 1,
            pairs@.len() == i,
            forall|j: int| 0 <= j < i ==> #[trigger] inequality_sides(c[j]) is Some,
            forall|j: int| 0 <= j < i ==> (#[trigger] pairs@[j].0@, pairs@[j].1@) == expected[j],
        decreases n - 1 - i,
    {
        assert(c[i as int] == conclusion@[i as int]@);
        match get_inequality(&conclusion[i]) {
            Some(p) => pairs.push(p),
            None => {
                return None;
            },
        }
        i = i + 1;
    }
    assert(pair_views(pairs@) =~= expected);
    to_option(find_chain(t, u, &pairs))
}


/// The literals in order, each kept only at its first occurrence.
pub open spec fn first_occurrences(s: Seq<SpecTerm>) -> Seq<SpecTerm>
    decreases s.len(),
{
    if s.len() == 0 {
        s
    } else {
        let d = first_occurrences(s.drop_last());
        if d.contains(s.last()) {
            d
        } else {
            d.push(s.last())
        }
    }
}

/// One premise, a step; the conclusion is its clause with each literal kept only at its first
/// occurrence.
pub open spec fn contraction_holds(c: Seq<SpecTerm>, premises: Seq<SpecCommand>) -> bool {
    &&& premises.len() == 1
    &&& premises[0] is Step
    &&& c == first_occurrences(clause_of(premises[0]))
}

/// Keeping first occurrences of a prefix gives a prefix of the result for the whole sequence.
proof fn lemma_first_occurrences_prefix(s: Seq<SpecTerm>, m: int)
    requires
        0 <= m <= s.len(),
    ensures
        first_occurrences(s.subrange(0, m)).len() <= first_occurrences(s).len(),
        forall|j: int|
            0 <= j < first_occurrences(s.subrange(0, m)).len() ==> first_occurrences(s)[j]
                == first_occurrences(s.subrange(0, m))[j],
    decreases s.len() - m,
{
    if m < s.len() {
        lemma_first_occurrences_prefix(s, m + 1);
        assert(s.subrange(0, m + 1).drop_last() =~= s.subrange(0, m));
    } else {
        assert(s.subrange(0, m) =~= s);
    }
}

/// Whether a term with the model `x` is among `ts`.
fn find_term(ts: &Vec<&Term>, x: &Term) -> (r: Option<usize>)
    ensures
        r is None <==> !ref_views(ts@).contains(x@),
        r matches Some(i) ==> i < ts@.len() && ts@[i as int]@ == x@,
{
    let ghost v = ref_views(ts@);
    let mut i: usize = 0;
    while i < ts.len()
        invariant
            i <= ts@.len(),
            v == ref_views(ts@),
            forall|j: int| 0 <= j < i ==> v[j] != x@,
        decreases ts@.len() - i,
    {
        if ts[i].equals(x) {
            assert(v[i as int] == x@);
            return Some(i);
        }
        i = i + 1;
    }
    None
}

/// The models of a sequence of term references.
pub open spec fn ref_views(ts: Seq<&Term>) -> Seq<SpecTerm> {
    Seq::new(ts.len(), |i: int| ts[i]@)
}

#[verifier::loop_isolation(false)]
pub fn contraction(conclusion: &[Term], premises: &[&ProofCommand], args: &[ProofArg]) -> (r: Option<
    (),
>)
    ensures
        r is Some <==> contraction_holds(Term::views(conclusion@), premise_views(premises@)),
{
    broadcast use Term::lemma_views;

    if premises.len() != 1 {
        return None;
    }
    let premise_clause = match premises[0] {
        ProofCommand::Step { clause, .. } => clause,
        _ => {
            return None;
        },
    };
    let ghost p = Term::views(premise_clause@);
    let ghost c = Term::views(conclusion@);
    let mut encountered: Vec<&Term> = Vec::new();
    let mut i: usize = 0;
    while i < premise_clause.len()
        invariant
            i <= p.len(),
            ref_views(encountered@) == first_occurrences(p.subrange(0, i as int)),
            encountered@.len() <= c.len(),
            forall|j: int| 0 <= j < encountered@.len() ==> #[trigger] c[j] == ref_views(encountered@)[j],
        decreases p.len() - i,
    {
        let t = &premise_clause[i];
        assert(p.subrange(0, i + 1).drop_last() =~= p.subrange(0, i as int));
        assert(p[i as int] == t@);
        let found = find_term(&encountered, t);
        if found.is_none() {
            let k = encountered.len();
            if k >= conclusion.len() || !conclusion[k].equals(t) {
                assert(first_occurrences(p.subrange(0, i + 1)) == ref_views(encountered@).push(t@));
                proof {
                    lemma_first_occurrences_prefix(p, i + 1);
                    assert(premise_views(premises@)[0] == premises@[0]@);
                    assert(clause_of(premises@[0]@) == p);
                    assert(first_occurrences(p)[k as int] == t@);
                    if k < conclusion.len() {
                        assert(c[k as int] == conclusion@[k as int]@);
                    }
                }
                return None;
            }
            let ghost before = ref_views(encountered@);
            encountered.push(t);
            assert(ref_views(encountered@) =~= before.push(t@));
        }
        i = i + 1;
    }
    assert(p.subrange(0, p.len() as int) =~= p);
    assert(premise_views(premises@)[0] == premises@[0]@);
    assert(clause_of(premises@[0]@) == p);
    if encountered.len() != conclusion.len() {
        return None;
    }
    assert(c =~= ref_views(encountered@));
    Some(())
}


/// Adds the literal `l` to the working clause `w`. A literal with `n` leading negations of a
/// core term stands for the pair `(n, core)`: when `l` is `(not u)` and `u` is present, `u` is
/// removed; else when `(not l)` is present it is removed; else `l` is added.
pub open spec fn resolve_literal(w: Set<SpecTerm>, l: SpecTerm) -> Set<SpecTerm> {
    if l.negated() is Some && w.contains(l.negated()->0) {
        w.remove(l.negated()->0)
    } else if w.contains(SpecTerm::not(l)) {
        w.remove(SpecTerm::not(l))
    } else {
        w.insert(l)
    }
}

/// The working clause after adding each literal in turn to the empty clause.
pub open spec fn resolve_all(lits: Seq<SpecTerm>) -> Set<SpecTerm>
    decreases lits.len(),
{
    if lits.len() == 0 {
        Set::empty()
    } else {
        resolve_literal(resolve_all(lits.drop_last()), lits.last())
    }
}

/// The literals of the premises, in order.
pub open spec fn premise_literals(ps: Seq<SpecCommand>) -> Seq<SpecTerm>
    decreases ps.len(),
{
    if ps.len() == 0 {
        seq![]
    } else {
        premise_literals(ps.drop_last()) + clause_of(ps.last())
    }
}

/// The conclusion holds no literal twice, and its literals are the working clause left by the
/// literals of the premises.
pub open spec fn resolution_holds(c: Seq<SpecTerm>, premises: Seq<SpecCommand>) -> bool {
    c.no_duplicates() && c.to_set() == resolve_all(premise_literals(premises))
}

proof fn lemma_remove_no_duplicates(s: Seq<SpecTerm>, i: int)
    requires
        s.no_duplicates(),
        0 <= i < s.len(),
    ensures
        s.remove(i).no_duplicates(),
        s.remove(i).to_set() == s.to_set().remove(s[i]),
{
    let r = s.remove(i);
    assert forall|a: int, b: int| 0 <= a < b < r.len() implies r[a] != r[b] by {
        let a2 = if a < i { a } else { a + 1 };
        let b2 = if b < i { b } else { b + 1 };
        assert(r[a] == s[a2] && r[b] == s[b2]);
    }
    assert forall|x: SpecTerm| #[trigger] r.to_set().contains(x) == s.to_set().remove(s[i]).contains(x) by {
        if r.contains(x) {
            let k = choose|k: int| 0 <= k < r.len() && r[k] == x;
            let k2 = if k < i { k } else { k + 1 };
            assert(s[k2] == x);
        }
        if s.contains(x) && x != s[i] {
            let k = choose|k: int| 0 <= k < s.len() && s[k] == x;
            if k < i {
                assert(r[k] == x);
            } else {
                assert(r[k - 1] == x);
            }
        }
    }
    assert(r.to_set() =~= s.to_set().remove(s[i]));
}

proof fn lemma_push_no_duplicates(s: Seq<SpecTerm>, x: SpecTerm)
    requires
        s.no_duplicates(),
        !s.contains(x),
    ensures
        s.push(x).no_duplicates(),
        s.push(x).to_set() == s.to_set().insert(x),
{
    let r = s.push(x);
    assert forall|a: int, b: int| 0 <= a < b < r.len() implies r[a] != r[b] by {
        if b == s.len() {
            assert(r[a] == s[a]);
        }
    }
    assert forall|y: SpecTerm| #[trigger] r.to_set().contains(y) == s.to_set().insert(x).contains(y) by {
        if r.contains(y) {
            let k = choose|k: int| 0 <= k < r.len() && r[k] == y;
            if k < s.len() {
                assert(s[k] == y);
            }
        }
        if s.contains(y) {
            let k = choose|k: int| 0 <= k < s.len() && s[k] == y;
            assert(r[k] == y);
        }
        if y == x {
            assert(r[s.len() as int] == y);
        }
    }
    assert(r.to_set() =~= s.to_set().insert(x));
}

/// The index of a term in `ts` whose model is `(not l)`.
fn find_negation_of(ts: &Vec<&Term>, l: &Term) -> (r: Option<usize>)
    ensures
        r is None <==> !ref_views(ts@).contains(SpecTerm::not(l@)),
        r matches Some(i) ==> i < ts@.len() && ts@[i as int]@ == SpecTerm::not(l@),
{
    broadcast use group_term_shapes;

    let ghost v = ref_views(ts@);
    let mut i: usize = 0;
    while i < ts.len()
        invariant
            i <= ts@.len(),
            v == ref_views(ts@),
            forall|j: int| 0 <= j < i ==> v[j] != SpecTerm::not(l@),
        decreases ts@.len() - i,
    {
        assert(v[i as int] == ts@[i as int]@);
        let is_negation = match ts[i].remove_negation() {
            Some(inner) => inner.equals(l),
            None => false,
        };
        assert(is_negation == (ts@[i as int]@.negated() == Some(l@)));
        if is_negation {
            proof {
                crate::ast::lemma_negated_shape(ts@[i as int]@);
            }
            assert(v[i as int] == SpecTerm::not(l@));
            return Some(i);
        }
        i = i + 1;
    }
    None
}

/// Adds one literal to the working clause, kept without duplicates.
fn resolve_step<'a>(w: &mut Vec<&'a Term>, l: &'a Term)
    requires
        ref_views(old(w)@).no_duplicates(),
    ensures
        ref_views(final(w)@).no_duplicates(),
        ref_views(final(w)@).to_set() == resolve_literal(ref_views(old(w)@).to_set(), l@),
{
    let ghost before = ref_views(w@);
    if let Some(u) = l.remove_negation() {
        if let Some(idx) = find_term(w, u) {
            proof {
                lemma_remove_no_duplicates(before, idx as int);
                assert(before.to_set().contains(u@));
            }
            w.remove(idx);
            assert(ref_views(w@) =~= before.remove(idx as int));
            return;
        }
    }
    if let Some(idx) = find_negation_of(w, l) {
        proof {
            lemma_remove_no_duplicates(before, idx as int);
            assert(before[idx as int] == SpecTerm::not(l@));
        }
        w.remove(idx);
        assert(ref_views(w@) =~= before.remove(idx as int));
        return;
    }
    if find_term(w, l).is_none() {
        proof {
            lemma_push_no_duplicates(before, l@);
        }
        w.push(l);
        assert(ref_views(w@) =~= before.push(l@));
    } else {
        assert(before.to_set().insert(l@) =~= before.to_set());
    }
}

#[verifier::loop_isolation(false)]
pub fn resolution(conclusion: &[Term], premises: &[&ProofCommand], args: &[ProofArg]) -> (r: Option<
    (),
>)
    ensures
        r is Some <==> resolution_holds(Term::views(conclusion@), premise_views(premises@)),
{
    broadcast use Term::lemma_views;

    let ghost ps = premise_views(premises@);
    let mut working: Vec<&Term> = Vec::new();
    assert(ref_views(working@).to_set() =~= Set::<SpecTerm>::empty());
    let mut i: usize = 0;
    while i < premises.len()
        invariant
            i <= premises@.len(),
            ref_views(working@).no_duplicates(),
            ref_views(working@).to_set() == resolve_all(premise_literals(ps.subrange(0, i as int))),
        decreases premises@.len() - i,
    {
        let command: &ProofCommand = premises[i];
        let ghost done = premise_literals(ps.subrange(0, i as int));
        assert(ps.subrange(0, i + 1).drop_last() =~= ps.subrange(0, i as int));
        assert(ps[i as int] == command@);
        match command {
            ProofCommand::Assume(term) => {
                resolve_step(&mut working, term);
                assert(done + clause_of(command@) =~= done.push(term@));
                assert((done + clause_of(command@)).drop_last() =~= done);
            },
            ProofCommand::Step { clause, .. } => {
                let ghost cl = Term::views(clause@);
                let mut j: usize = 0;
                while j < clause.len()
                    invariant
                        j <= clause@.len(),
                        cl == Term::views(clause@),
                        ref_views(working@).no_duplicates(),
                        ref_views(working@).to_set() == resolve_all(done + cl.subrange(0, j as int)),
                    decreases clause@.len() - j,
                {
                    resolve_step(&mut working, &clause[j]);
                    assert((done + cl.subrange(0, j + 1)).drop_last() =~= done + cl.subrange(0, j as int));
                    assert((done + cl.subrange(0, j + 1)).last() == clause@[j as int]@);
                    j = j + 1;
                }
                assert(cl.subrange(0, cl.len() as int) =~= cl);
                assert(done + cl.subrange(0, 0) =~= done);
            },
        }
        i = i + 1;
    }
    assert(ps.subrange(0, ps.len() as int) =~= ps);
    let ghost w = ref_views(working@);
    let ghost c = Term::views(conclusion@);
    // The conclusion must hold each literal once, and exactly the literals left in the working
    // clause.
    let mut seen: Vec<&Term> = Vec::new();
    let mut k: usize = 0;
    while k < conclusion.len()
        invariant
            k <= conclusion@.len(),
            ref_views(seen@) == c.subrange(0, k as int),
            c.subrange(0, k as int).no_duplicates(),
            forall|m: int| 0 <= m < k ==> w.contains(#[trigger] c[m]),
        decreases conclusion@.len() - k,
    {
        let lit = &conclusion[k];
        assert(c[k as int] == lit@);
        if find_term(&seen, lit).is_some() {
            assert(!c.no_duplicates()) by {
                let m = choose|m: int| 0 <= m < k && c.subrange(0, k as int)[m] == lit@;
                assert(c[m] == c[k as int]);
            }
            return None;
        }
        if find_term(&working, lit).is_none() {
            assert(!w.to_set().contains(c[k as int]));
            assert(c.to_set().contains(c[k as int]));
            return None;
        }
        let ghost before = ref_views(seen@);
        seen.push(lit);
        assert(ref_views(seen@) =~= before.push(lit@));
        assert(c.subrange(0, k + 1) =~= c.subrange(0, k as int).push(lit@));
        proof {
            lemma_push_no_duplicates(c.subrange(0, k as int), lit@);
        }
        k = k + 1;
    }
    assert(c.subrange(0, c.len() as int) =~= c);
    let mut m: usize = 0;
    while m < working.len()
        invariant
            m <= working@.len(),
            w == ref_views(working@),
            ref_views(seen@) == c,
            forall|x: int| 0 <= x < m ==> c.contains(#[trigger] w[x]),
        decreases working@.len() - m,
    {
        if find_term(&seen, working[m]).is_none() {
            assert(w[m as int] == working@[m as int]@);
            assert(w.to_set().contains(w[m as int]));
            assert(!c.to_set().contains(w[m as int]));
            return None;
        }
        m = m + 1;
    }
    assert(c.to_set() =~= w.to_set()) by {
        assert forall|x: SpecTerm| c.contains(x) implies w.contains(x) by {
            let q = choose|q: int| 0 <= q < c.len() && c[q] == x;
        }
        assert forall|x: SpecTerm| w.contains(x) implies c.contains(x) by {
            let q = choose|q: int| 0 <= q < w.len() && w[q] == x;
        }
    }
    Some(())
}


/// The `ite` subterms of a term with three arguments, in pre-order, a shared subterm once for
/// each occurrence.
pub open spec fn ite_subterms(t: SpecTerm) -> Seq<SpecTerm>
    decreases t, 0nat,
{
    let own = if t.ite_parts() is Some {
        seq![t]
    } else {
        seq![]
    };
    own + match t {
        SpecTerm::Op(_, args) => ite_subterms_all(args),
        SpecTerm::App(f, args) => ite_subterms(*f) + ite_subterms_all(args),
        SpecTerm::Quant(_, _, body) => ite_subterms(*body),
        _ => seq![],
    }
}

/// The `ite` subterms of a sequence of terms, in order.
pub open spec fn ite_subterms_all(ts: Seq<SpecTerm>) -> Seq<SpecTerm>
    decreases ts, 1nat,
{
    if ts.len() == 0 {
        seq![]
    } else {
        ite_subterms_all(ts.subrange(0, ts.len() - 1)) + ite_subterms(ts[ts.len() - 1])
    }
}

/// `u` is `(ite c (= s a) (= s b))` where `s` is `(ite c a b)`.
pub open spec fn is_ite_expansion(u: SpecTerm, s: SpecTerm) -> bool {
    s.ite_parts() matches Some(p) && u == SpecTerm::Op(
        Operator::Ite,
        seq![p.0, SpecTerm::equality(s, p.1), SpecTerm::equality(s, p.2)],
    )
}

/// `[(= t (and t u1 ... uk))]` where `ui` is the expansion of the `i`-th `ite` subterm of `t`.
pub open spec fn ite_intro_holds(c: Seq<SpecTerm>) -> bool {
    &&& c.len() == 1
    &&& c[0].binary(Operator::Equals) matches Some(parts) && parts.1.op_args(Operator::And) matches Some(
        us,
    ) && us.len() >= 1 && us[0] == parts.0 && us.len() - 1 == ite_subterms(parts.0).len() && forall|
        k: int,
    | 0 <= k < us.len() - 1 ==> #[trigger] is_ite_expansion(us[k + 1], ite_subterms(parts.0)[k])
}

proof fn lemma_ite_subterms_are_ites(t: SpecTerm)
    ensures
        forall|k: int|
            0 <= k < ite_subterms(t).len() ==> (#[trigger] ite_subterms(t)[k]).ite_parts() is Some,
    decreases t, 0nat,
{
    match t {
        SpecTerm::Op(_, args) => {
            lemma_ite_subterms_all_are_ites(args);
        },
        SpecTerm::App(f, args) => {
            lemma_ite_subterms_are_ites(*f);
            lemma_ite_subterms_all_are_ites(args);
        },
        SpecTerm::Quant(_, _, body) => {
            lemma_ite_subterms_are_ites(*body);
        },
        _ => {},
    }
}

proof fn lemma_ite_subterms_all_are_ites(ts: Seq<SpecTerm>)
    ensures
        forall|k: int|
            0 <= k < ite_subterms_all(ts).len() ==> (#[trigger] ite_subterms_all(ts)[k]).ite_parts() is Some,
    decreases ts, 1nat,
{
    if ts.len() > 0 {
        lemma_ite_subterms_all_are_ites(ts.subrange(0, ts.len() - 1));
        lemma_ite_subterms_are_ites(ts[ts.len() - 1]);
    }
}

/// Appends the `ite` subterms of `t` to `out`.
fn collect_ites<'a>(t: &'a Term, out: &mut Vec<&'a Term>)
    ensures
        ref_views(final(out)@) == ref_views(old(out)@) + ite_subterms(t@),
    decreases t, 0nat,
{
    let ghost before = ref_views(out@);
    if t.ite_parts().is_some() {
        out.push(t);
        assert(ref_views(out@) =~= before.push(t@));
    }
    let ghost mid = ref_views(out@);
    match t {
        Term::Op(_, args) => {
            collect_ites_all(args, args.len(), out);
            assert(Term::views(args@).subrange(0, args@.len() as int) =~= Term::views(args@));
        },
        Term::App(f, args) => {
            collect_ites(f, out);
            collect_ites_all(args, args.len(), out);
            assert(Term::views(args@).subrange(0, args@.len() as int) =~= Term::views(args@));
        },
        Term::Quant(_, _, body) => {
            collect_ites(body, out);
        },
        _ => {},
    }
    assert(ref_views(out@) =~= before + ite_subterms(t@));
}

/// Appends the `ite` subterms of the first `n` terms of `ts` to `out`.
fn collect_ites_all<'a>(ts: &'a Vec<Term>, n: usize, out: &mut Vec<&'a Term>)
    requires
        n <= ts@.len(),
    ensures
        ref_views(final(out)@) == ref_views(old(out)@) + ite_subterms_all(
            Term::views(ts@).subrange(0, n as int),
        ),
    decreases ts, 1nat, n,
{
    broadcast use Term::lemma_views;

    let ghost xs = Term::views(ts@).subrange(0, n as int);
    if n == 0 {
        assert(ref_views(out@) + ite_subterms_all(xs) =~= ref_views(out@));
        return;
    }
    let ghost before = ref_views(out@);
    collect_ites_all(ts, n - 1, out);
    assert(xs.subrange(0, xs.len() - 1) =~= Term::views(ts@).subrange(0, n - 1));
    assert(decreases_to!(ts => ts@[n - 1]));
    collect_ites(&ts[n - 1], out);
}

#[verifier::loop_isolation(false)]
pub fn ite_intro(conclusion: &[Term], premises: &[&ProofCommand], args: &[ProofArg]) -> (r: Option<
    (),
>)
    ensures
        r is Some <==> ite_intro_holds(Term::views(conclusion@)),
{
    broadcast use Term::lemma_views, group_term_shapes;

    if conclusion.len() != 1 {
        return None;
    }
    let (root_term, us_term) = conclusion[0].binary(Operator::Equals)?;
    let us = us_term.op_args(Operator::And)?;
    let ghost u = Term::views(us@);
    let mut ite_terms: Vec<&Term> = Vec::new();
    collect_ites(root_term, &mut ite_terms);
    assert(ref_views(Seq::<&Term>::empty()) =~= Seq::<SpecTerm>::empty());
    let ghost ites = ref_views(ite_terms@);
    assert(ites =~= ite_subterms(root_term@));
    proof {
        lemma_ite_subterms_are_ites(root_term@);
    }
    if us.len() == 0 || ite_terms.len() != us.len() - 1 || !us[0].equals(root_term) {
        return None;
    }
    let mut k: usize = 0;
    while k < ite_terms.len()
        invariant
            k <= ite_terms@.len(),
            forall|m: int| 0 <= m < k ==> #[trigger] is_ite_expansion(u[m + 1], ites[m]),
        decreases ite_terms@.len() - k,
    {
        let s_k = ite_terms[k];
        let u_k = &us[k + 1];
        assert(ites[k as int] == s_k@ && u[k + 1] == u_k@);
        let (cond, a, b) = s_k.ite_parts().unwrap();
        let is_valid = match u_k.ite_parts() {
            Some((c2, e1, e2)) => {
                let first = match e1.binary(Operator::Equals) {
                    Some((x, y)) => x.equals(s_k) && y.equals(a),
                    None => false,
                };
                let second = match e2.binary(Operator::Equals) {
                    Some((x, y)) => x.equals(s_k) && y.equals(b),
                    None => false,
                };
                c2.equals(cond) && first && second
            },
            None => false,
        };
        if !is_valid {
            assert(!is_ite_expansion(u[k + 1], ites[k as int]));
            return None;
        }
        assert(is_ite_expansion(u[k + 1], ites[k as int]));
        k = k + 1;
    }
    Some(())
}


/// `a` is the negation of `b`, or `b` the negation of `a`.
pub open spec fn complementary(a: SpecTerm, b: SpecTerm) -> bool {
    a == SpecTerm::not(b) || b == SpecTerm::not(a)
}

/// No literal occurs twice, and none is complementary to two others: each cancellation has one
/// possible partner.
pub open spec fn cancellations_unambiguous(lits: Seq<SpecTerm>) -> bool {
    &&& lits.no_duplicates()
    &&& forall|i: int, j: int, k: int|
        #![trigger complementary(lits[i], lits[j]), complementary(lits[i], lits[k])]
        0 <= i < lits.len() && 0 <= j < lits.len() && 0 <= k < lits.len() && j != k
            && complementary(lits[i], lits[j]) ==> !complementary(lits[i], lits[k])
}

/// The literals that have no complementary literal among `lits`.
pub open spec fn uncancelled(lits: Set<SpecTerm>) -> Set<SpecTerm> {
    Set::new(|l: SpecTerm| lits.contains(l) && !(exists|m: SpecTerm| lits.contains(m) && #[trigger] complementary(l, m)))
}

/// A term is never its own negation.
proof fn lemma_not_differs(t: SpecTerm)
    ensures
        SpecTerm::not(t) != t,
{
    let x = SpecTerm::not(t);
    assert(decreases_to!(x => x->Op_1));
    assert(decreases_to!(x->Op_1 => x->Op_1[0]));
    assert(x->Op_1[0] == t);
}

/// With unambiguous cancellations, the working clause is the set of literals without a
/// complementary literal, whatever their order.
proof fn lemma_resolve_all_uncancelled(lits: Seq<SpecTerm>)
    requires
        cancellations_unambiguous(lits),
    ensures
        resolve_all(lits) == uncancelled(lits.to_set()),
    decreases lits.len(),
{
    if lits.len() == 0 {
        assert(uncancelled(lits.to_set()) =~= Set::<SpecTerm>::empty());
        return;
    }
    let n = lits.len() - 1;
    let pre = lits.drop_last();
    let l = lits.last();
    assert(cancellations_unambiguous(pre)) by {
        assert forall|i: int, j: int, k: int|
            0 <= i < pre.len() && 0 <= j < pre.len() && 0 <= k < pre.len() && j != k
                && #[trigger] complementary(pre[i], pre[j]) implies !#[trigger] complementary(pre[i], pre[k]) by {
            assert(pre[i] == lits[i] && pre[j] == lits[j] && pre[k] == lits[k]);
        }
    }
    lemma_resolve_all_uncancelled(pre);
    lemma_not_differs(l);
    let w = resolve_all(pre);
    let ps = pre.to_set();
    let s = lits.to_set();
    assert(s =~= ps.insert(l)) by {
        assert forall|x: SpecTerm| s.contains(x) == ps.insert(l).contains(x) by {
            if lits.contains(x) {
                let j = choose|j: int| 0 <= j < lits.len() && lits[j] == x;
                if j < n {
                    assert(pre[j] == x);
                }
            }
            if pre.contains(x) {
                let j = choose|j: int| 0 <= j < pre.len() && pre[j] == x;
                assert(lits[j] == x);
            }
            if x == l {
                assert(lits[n] == x);
            }
        }
    }
    assert(!ps.contains(l)) by {
        if pre.contains(l) {
            let j = choose|j: int| 0 <= j < pre.len() && pre[j] == l;
            assert(lits[j] == lits[n]);
        }
    }
    // Any two literals of `pre` complementary to `l` are one literal.
    assert forall|m1: SpecTerm, m2: SpecTerm|
        ps.contains(m1) && ps.contains(m2) && #[trigger] complementary(l, m1) && #[trigger] complementary(l, m2) implies m1 == m2 by {
        let j1 = choose|j: int| 0 <= j < pre.len() && pre[j] == m1;
        let j2 = choose|j: int| 0 <= j < pre.len() && pre[j] == m2;
        assert(lits[j1] == m1 && lits[j2] == m2 && lits[n] == l);
        assert(complementary(lits[n], lits[j1]) && complementary(lits[n], lits[j2]));
    }
    // A literal of `pre` complementary to `l` has no other complement.
    assert forall|m: SpecTerm, x: SpecTerm|
        ps.contains(m) && complementary(l, m) && s.contains(x) && #[trigger] complementary(m, x) implies x == l by {
        let jm = choose|j: int| 0 <= j < pre.len() && pre[j] == m;
        assert(lits[jm] == m);
        if x != l {
            let jx = choose|j: int| 0 <= j < lits.len() && lits[j] == x;
            assert(lits[n] == l);
            assert(complementary(lits[jm], lits[n]));
            assert(complementary(lits[jm], lits[jx]));
        }
    }
    if exists|m: SpecTerm| ps.contains(m) && complementary(l, m) {
        let m = choose|m: SpecTerm| ps.contains(m) && complementary(l, m);
        assert(w.contains(m)) by {
            if exists|x: SpecTerm| ps.contains(x) && #[trigger] complementary(m, x) {
                let x = choose|x: SpecTerm| ps.contains(x) && #[trigger] complementary(m, x);
                assert(x == l);
            }
        }
        assert(resolve_all(lits) == resolve_literal(w, l)) by {
            assert(lits.drop_last() == pre);
        }
        assert(resolve_literal(w, l) == w.remove(m)) by {
            if l.negated() is Some && w.contains(l.negated()->0) {
                let u = l.negated()->0;
                crate::ast::lemma_negated_shape(l);
                assert(complementary(l, u));
            } else if w.contains(SpecTerm::not(l)) {
                assert(complementary(l, SpecTerm::not(l)));
            } else {
                if l == SpecTerm::not(m) {
                    crate::ast::lemma_negated_shape(m);
                }
            }
        }
        assert(w.remove(m) =~= uncancelled(s)) by {
            assert forall|x: SpecTerm| #[trigger] w.remove(m).contains(x) == uncancelled(s).contains(x) by {
                if x == m {
                    assert(complementary(m, l));
                } else if x == l {
                } else if ps.contains(x) {
                    if complementary(x, l) {
                        assert(complementary(l, x));
                    }
                    if exists|y: SpecTerm| s.contains(y) && #[trigger] complementary(x, y) {
                        let y = choose|y: SpecTerm| s.contains(y) && #[trigger] complementary(x, y);
                        if y != l {
                            assert(ps.contains(y));
                        }
                    }
                }
            }
        }
    } else {
        assert(resolve_all(lits) == resolve_literal(w, l)) by {
            assert(lits.drop_last() == pre);
        }
        assert(resolve_literal(w, l) == w.insert(l)) by {
            if l.negated() is Some && w.contains(l.negated()->0) {
                crate::ast::lemma_negated_shape(l);
                assert(complementary(l, l.negated()->0));
            }
            if w.contains(SpecTerm::not(l)) {
                assert(complementary(l, SpecTerm::not(l)));
            }
        }
        assert(w.insert(l) =~= uncancelled(s)) by {
            assert forall|x: SpecTerm| #[trigger] w.insert(l).contains(x) == uncancelled(s).contains(x) by {
                if x == l {
                    if exists|y: SpecTerm| s.contains(y) && #[trigger] complementary(l, y) {
                        let y = choose|y: SpecTerm| s.contains(y) && #[trigger] complementary(l, y);
                        if y == l {
                            assert(complementary(l, l));
                        } else {
                            assert(ps.contains(y));
                        }
                    }
                } else if ps.contains(x) {
                    if exists|y: SpecTerm| s.contains(y) && #[trigger] complementary(x, y) {
                        let y = choose|y: SpecTerm| s.contains(y) && #[trigger] complementary(x, y);
                        if y == l {
                            assert(complementary(l, x));
                        } else {
                            assert(ps.contains(y));
                        }
                    }
                }
            }
        }
    }
}

/// A literal is among the premises' literals exactly when it is in the clause of one premise.
proof fn lemma_premise_literals_contains(ps: Seq<SpecCommand>, x: SpecTerm)
    ensures
        premise_literals(ps).contains(x) == exists|i: int|
            0 <= i < ps.len() && #[trigger] clause_of(ps[i]).contains(x),
    decreases ps.len(),
{
    if ps.len() > 0 {
        let pre = ps.drop_last();
        lemma_premise_literals_contains(pre, x);
        let a = premise_literals(pre);
        let b = clause_of(ps.last());
        let all = a + b;
        if all.contains(x) {
            let k = choose|k: int| 0 <= k < all.len() && all[k] == x;
            if k < a.len() {
                assert(a[k] == x);
                let i = choose|i: int| 0 <= i < pre.len() && #[trigger] clause_of(pre[i]).contains(x);
                assert(pre[i] == ps[i]);
            } else {
                assert(b[k - a.len()] == x);
                assert(clause_of(ps[ps.len() - 1]).contains(x));
            }
        }
        if exists|i: int| 0 <= i < ps.len() && #[trigger] clause_of(ps[i]).contains(x) {
            let i = choose|i: int| 0 <= i < ps.len() && #[trigger] clause_of(ps[i]).contains(x);
            if i < pre.len() {
                assert(pre[i] == ps[i]);
                assert(clause_of(pre[i]).contains(x));
                let k = choose|k: int| 0 <= k < a.len() && a[k] == x;
                assert(all[k] == x);
            } else {
                let k = choose|k: int| 0 <= k < b.len() && b[k] == x;
                assert(all[a.len() + k] == x);
            }
        }
    }
}

/// Resolution does not depend on the order of the premises: when two premise lists hold the
/// same commands and every cancellation is unambiguous, a conclusion is accepted for one list
/// exactly when it is accepted for the other.
pub proof fn lemma_resolution_order_independent(
    c: Seq<SpecTerm>,
    ps1: Seq<SpecCommand>,
    ps2: Seq<SpecCommand>,
)
    requires
        ps1.to_multiset() == ps2.to_multiset(),
        cancellations_unambiguous(premise_literals(ps1)),
        cancellations_unambiguous(premise_literals(ps2)),
    ensures
        resolution_holds(c, ps1) == resolution_holds(c, ps2),
{
    lemma_resolve_all_uncancelled(premise_literals(ps1));
    lemma_resolve_all_uncancelled(premise_literals(ps2));
    let l1 = premise_literals(ps1);
    let l2 = premise_literals(ps2);
    assert(l1.to_set() =~= l2.to_set()) by {
        assert forall|x: SpecTerm| l1.contains(x) implies l2.contains(x) by {
            lemma_premise_literals_contains(ps1, x);
            lemma_premise_literals_contains(ps2, x);
            let i = choose|i: int| 0 <= i < ps1.len() && #[trigger] clause_of(ps1[i]).contains(x);
            vstd::seq_lib::to_multiset_contains(ps1, ps1[i]);
            vstd::seq_lib::to_multiset_contains(ps2, ps1[i]);
            assert(ps1.contains(ps1[i]));
            let j = choose|j: int| 0 <= j < ps2.len() && ps2[j] == ps1[i];
            assert(clause_of(ps2[j]).contains(x));
        }
        assert forall|x: SpecTerm| l2.contains(x) implies l1.contains(x) by {
            lemma_premise_literals_contains(ps1, x);
            lemma_premise_literals_contains(ps2, x);
            let i = choose|i: int| 0 <= i < ps2.len() && #[trigger] clause_of(ps2[i]).contains(x);
            vstd::seq_lib::to_multiset_contains(ps1, ps2[i]);
            vstd::seq_lib::to_multiset_contains(ps2, ps2[i]);
            assert(ps2.contains(ps2[i]));
            let j = choose|j: int| 0 <= j < ps1.len() && ps1[j] == ps2[i];
            assert(clause_of(ps1[j]).contains(x));
        }
    }
}

} // verus!
