use super::to_option;
use crate::ast::{
    binding_views, eq_modulo_reordering, eq_modulo_reordering_all, Operator, Quantifier, SpecSort, SpecTerm, Sort, Term,
    Terminal,
};
use crate::commands::{arg_views, ProofArg, ProofCommand, SpecArg};
use crate::pool::{
    apply_substitutions, binding_names, lookup, occurs_free, occurs_free_var, substitute,
    substitute_all, substitution_views,
};
use vstd::prelude::*;

verus! {

/// `a` is `(:= x value)` for the binding `(x S)`, with `value` of sort `S`.
pub open spec fn assigns_binding(a: SpecArg, b: (Seq<char>, SpecSort)) -> bool {
    a matches SpecArg::Assign(name, value) && name == b.0 && value.sort() == b.1
}

/// The substitution of each bound variable by the value assigned to it.
pub open spec fn instantiation(bs: Seq<(Seq<char>, SpecSort)>, args: Seq<SpecArg>) -> Seq<
    (SpecTerm, SpecTerm),
> {
    Seq::new(bs.len(), |i: int| (SpecTerm::Var(bs[i].0, bs[i].1), args[i]->Assign_1))
}

/// `[(or (not (forall ((x1 S1) ... (xn Sn)) phi)) psi)]` with arguments `(:= x1 v1) ... (:= xn
/// vn)`, in binding order and of the bound sorts, where `phi` with each `xi` replaced by `vi`
/// equals `psi` up to the order of the sides of equalities.
pub open spec fn forall_inst_holds(c: Seq<SpecTerm>, args: Seq<SpecArg>) -> bool {
    &&& c.len() == 1
    &&& c[0].op_args(Operator::Or) matches Some(d) && d.len() == 2 && match d[0].negated() {
        Some(q) => instance_holds(q, d[1], args),
        None => false,
    }
}

/// `q` is `(forall ((x1 S1) ... (xn Sn)) phi)`, the arguments assign each `xi` in order a value
/// of sort `Si`, and `psi` is the instance up to the order of the sides of equalities.
pub open spec fn instance_holds(q: SpecTerm, psi: SpecTerm, args: Seq<SpecArg>) -> bool {
    match q {
        SpecTerm::Quant(kind, bs, phi) => {
            &&& kind == Quantifier::Forall
            &&& args.len() == bs.len()
            &&& forall|i: int| 0 <= i < args.len() ==> #[trigger] assigns_binding(args[i], bs[i])
            &&& eq_modulo_reordering(substitute(*phi, instantiation(bs, args), seq![]), psi)
        },
        _ => false,
    }
}

#[verifier::loop_isolation(false)]
pub fn forall_inst(conclusion: &[Term], premises: &[&ProofCommand], args: &[ProofArg]) -> (r: Option<
    (),
>)
    ensures
        r is Some <==> forall_inst_holds(Term::views(conclusion@), arg_views(args@)),
{
    broadcast use Term::lemma_views;

    if conclusion.len() != 1 {
        return None;
    }
    let disjuncts = conclusion[0].op_args(Operator::Or)?;
    if disjuncts.len() != 2 {
        return None;
    }
    assert(Term::views(disjuncts@)[0] == disjuncts@[0]@);
    assert(Term::views(disjuncts@)[1] == disjuncts@[1]@);
    let forall_term = disjuncts[0].remove_negation()?;
    let (bindings, phi) = match forall_term {
        Term::Quant(Quantifier::Forall, bindings, phi) => (bindings, phi),
        _ => {
            return None;
        },
    };
    let ghost bs = binding_views(bindings@);
    let ghost av = arg_views(args@);
    assert(forall_term@ == SpecTerm::Quant(Quantifier::Forall, bs, Box::new(phi@)));
    if args.len() != bindings.len() {
        return None;
    }
    let mut substitutions: Vec<(Term, Term)> = Vec::new();
    let mut i: usize = 0;
    while i < args.len()
        invariant
            i <= args@.len(),
            substitutions@.len() == i,
            forall|j: int| 0 <= j < i ==> #[trigger] assigns_binding(av[j], bs[j]),
            forall|j: int| 0 <= j < i ==> #[trigger] substitution_views(substitutions@)[j] == instantiation(bs, av)[j],
        decreases args@.len() - i,
    {
        let (binding_name, binding_sort) = (&bindings[i].0, &bindings[i].1);
        assert(bs[i as int] == (binding_name@, binding_sort@));
        assert(av[i as int] == args@[i as int]@);
        match &args[i] {
            ProofArg::Assign(arg_name, arg_value) => {
                let arg_sort = arg_value.sort();
                if !(*arg_name == *binding_name) || !arg_sort.equals(binding_sort) {
                    assert(!assigns_binding(av[i as int], bs[i as int]));
                    return None;
                }
                let var = Term::Terminal(Terminal::Var(arg_name.clone(), binding_sort.duplicate()));
                let ghost before = substitution_views(substitutions@);
                substitutions.push((var, arg_value.duplicate()));
                assert(substitution_views(substitutions@) =~= before.push((var@, arg_value@)));
            },
            ProofArg::Term(_) => {
                assert(!assigns_binding(av[i as int], bs[i as int]));
                return None;
            },
        }
        i = i + 1;
    }
    assert(substitution_views(substitutions@) =~= instantiation(bs, av));
    let substituted = apply_substitutions(phi, &substitutions);
    to_option(substituted.eq_modulo_reordering(&disjuncts[1]))
}

/// The bindings in order, dropping each whose name an earlier one already has.
pub open spec fn dedup_bindings(bs: Seq<(Seq<char>, SpecSort)>) -> Seq<(Seq<char>, SpecSort)>
    decreases bs.len(),
{
    if bs.len() == 0 {
        bs
    } else {
        let d = dedup_bindings(bs.drop_last());
        if binding_names(d).contains(bs.last().0) {
            d
        } else {
            d.push(bs.last())
        }
    }
}

/// `[(= (Q b1 (Q b2 phi)) (Q b phi))]` where `b` is `b1` followed by `b2` without the bindings
/// whose name appeared before.
pub open spec fn qnt_join_holds(c: Seq<SpecTerm>) -> bool {
    &&& c.len() == 1
    &&& c[0].binary(Operator::Equals) matches Some(parts) && join_holds(parts.0, parts.1)
}

/// `left` is `(Q b1 (Q b2 phi))` and `right` is `(Q b phi)` with `b` the joined bindings.
pub open spec fn join_holds(left: SpecTerm, right: SpecTerm) -> bool {
    match (left, right) {
        (SpecTerm::Quant(q1, b1, inner), SpecTerm::Quant(q3, b3, body3)) => match *inner {
            SpecTerm::Quant(q2, b2, body) => q1 == q2 && q2 == q3 && body == *body3 && b3
                == dedup_bindings(b1 + b2),
            _ => false,
        },
        _ => false,
    }
}

proof fn lemma_dedup_prefix(s: Seq<(Seq<char>, SpecSort)>, m: int)
    requires
        0 <= m <= s.len(),
    ensures
        dedup_bindings(s.subrange(0, m)).len() <= dedup_bindings(s).len(),
        forall|j: int|
            0 <= j < dedup_bindings(s.subrange(0, m)).len() ==> dedup_bindings(s)[j]
                == dedup_bindings(s.subrange(0, m))[j],
    decreases s.len() - m,
{
    if m < s.len() {
        lemma_dedup_prefix(s, m + 1);
        assert(s.subrange(0, m + 1).drop_last() =~= s.subrange(0, m));
    } else {
        assert(s.subrange(0, m) =~= s);
    }
}

#[verifier::loop_isolation(false)]
pub fn qnt_join(conclusion: &[Term], premises: &[&ProofCommand], args: &[ProofArg]) -> (r: Option<
    (),
>)
    ensures
        r is Some <==> qnt_join_holds(Term::views(conclusion@)),
{
    broadcast use Term::lemma_views;

    if conclusion.len() != 1 {
        return None;
    }
    let (left, right) = conclusion[0].binary(Operator::Equals)?;
    let (q_1, bindings_1, inner) = match left {
        Term::Quant(q, b, t) => (q, b, t),
        _ => {
            return None;
        },
    };
    let (q_2, bindings_2, left_body) = match &**inner {
        Term::Quant(q, b, t) => (q, b, t),
        _ => {
            return None;
        },
    };
    let (q_3, bindings_3, right_body) = match right {
        Term::Quant(q, b, t) => (q, b, t),
        _ => {
            return None;
        },
    };
    let ghost b1 = binding_views(bindings_1@);
    let ghost b2 = binding_views(bindings_2@);
    let ghost b3 = binding_views(bindings_3@);
    assert(left@ == SpecTerm::Quant(*q_1, b1, Box::new(inner@)));
    assert(inner@ == SpecTerm::Quant(*q_2, b2, Box::new(left_body@)));
    assert(right@ == SpecTerm::Quant(*q_3, b3, Box::new(right_body@)));
    if *q_1 != *q_2 || *q_2 != *q_3 || !left_body.equals(right_body) {
        return None;
    }
    let ghost all = b1 + b2;
    let mut combined: Vec<(&String, &Sort)> = Vec::new();
    let mut i: usize = 0;
    while i < bindings_1.len()
        invariant
            i <= b1.len(),
            combined@.len() == i,
            forall|j: int| 0 <= j < i ==> (#[trigger] combined@[j].0@, combined@[j].1@) == all[j],
        decreases b1.len() - i,
    {
        combined.push((&bindings_1[i].0, &bindings_1[i].1));
        i = i + 1;
    }
    let mut i: usize = 0;
    while i < bindings_2.len()
        invariant
            i <= b2.len(),
            combined@.len() == b1.len() + i,
            forall|j: int| 0 <= j < b1.len() + i ==> (#[trigger] combined@[j].0@, combined@[j].1@) == all[j],
        decreases b2.len() - i,
    {
        combined.push((&bindings_2[i].0, &bindings_2[i].1));
        i = i + 1;
    }
    let n = combined.len();
    let mut k: usize = 0;
    let mut i: usize = 0;
    while i < n
        invariant
            i <= n,
            n == all.len(),
            k <= b3.len(),
            b3.subrange(0, k as int) == dedup_bindings(all.subrange(0, i as int)),
        decreases n - i,
    {
        let (name, sort) = combined[i];
        assert(all[i as int] == (name@, sort@));
        assert(all.subrange(0, i + 1).drop_last() =~= all.subrange(0, i as int));
        let ghost d = dedup_bindings(all.subrange(0, i as int));
        // Whether an earlier kept binding has this name.
        let mut seen = false;
        let mut j: usize = 0;
        while j < k
            invariant
                j <= k,
                seen == binding_names(d.subrange(0, j as int)).contains(name@),
            decreases k - j,
        {
            assert(d[j as int] == (bindings_3@[j as int].0@, bindings_3@[j as int].1@));
            if bindings_3[j].0 == *name {
                assert(binding_names(d.subrange(0, j + 1))[j as int] == name@);
                seen = true;
            } else {
                let ghost before = binding_names(d.subrange(0, j as int));
                let ghost after = binding_names(d.subrange(0, j + 1));
                assert(after =~= before.push(bindings_3@[j as int].0@));
                proof {
                    if seen {
                        let w = choose|w: int| 0 <= w < before.len() && before[w] == name@;
                        assert(after[w] == name@);
                    }
                }
            }
            j = j + 1;
            if seen {
                assert(binding_names(d.subrange(0, j as int)).contains(name@));
            }
        }
        assert(d.subrange(0, k as int) =~= d);
        if !seen {
            if k >= bindings_3.len() || !(bindings_3[k].0 == *name) || !bindings_3[k].1.equals(sort) {
                proof {
                    lemma_dedup_prefix(all, i + 1);
                    assert(dedup_bindings(all.subrange(0, i + 1)) == d.push(all[i as int]));
                    if k < b3.len() {
                        assert(b3[k as int] == (bindings_3@[k as int].0@, bindings_3@[k as int].1@));
                    }
                    assert(all.subrange(0, n as int) =~= all);
                }
                return None;
            }
            assert(b3[k as int] == all[i as int]);
            assert(b3.subrange(0, k + 1) =~= d.push(all[i as int]));
            k = k + 1;
        }
        i = i + 1;
    }
    assert(all.subrange(0, n as int) =~= all);
    assert(b3.subrange(0, b3.len() as int) =~= b3);
    to_option(k == bindings_3.len())
}

/// The bindings in order whose variable occurs free in `body`.
pub open spec fn used_bindings(bs: Seq<(Seq<char>, SpecSort)>, body: SpecTerm) -> Seq<
    (Seq<char>, SpecSort),
>
    decreases bs.len(),
{
    if bs.len() == 0 {
        bs
    } else {
        let d = used_bindings(bs.drop_last(), body);
        if occurs_free(SpecTerm::Var(bs.last().0, bs.last().1), body) {
            d.push(bs.last())
        } else {
            d
        }
    }
}

/// `[(= (Q b phi) (Q b' phi))]` where `b'` keeps, in order, the bindings of `b` whose variable
/// occurs free in `phi`.
pub open spec fn qnt_rm_unused_holds(c: Seq<SpecTerm>) -> bool {
    &&& c.len() == 1
    &&& c[0].binary(Operator::Equals) matches Some(parts) && rm_unused_holds(parts.0, parts.1)
}

/// `left` is `(Q b phi)` and `right` is `(Q b' phi)` with `b'` the used bindings of `b`.
pub open spec fn rm_unused_holds(left: SpecTerm, right: SpecTerm) -> bool {
    match (left, right) {
        (SpecTerm::Quant(q1, b1, phi1), SpecTerm::Quant(q2, b2, phi2)) => q1 == q2 && *phi1
            == *phi2 && b2 == used_bindings(b1, *phi1),
        _ => false,
    }
}

proof fn lemma_used_prefix(s: Seq<(Seq<char>, SpecSort)>, body: SpecTerm, m: int)
    requires
        0 <= m <= s.len(),
    ensures
        used_bindings(s.subrange(0, m), body).len() <= used_bindings(s, body).len(),
        forall|j: int|
            0 <= j < used_bindings(s.subrange(0, m), body).len() ==> used_bindings(s, body)[j]
                == used_bindings(s.subrange(0, m), body)[j],
    decreases s.len() - m,
{
    if m < s.len() {
        lemma_used_prefix(s, body, m + 1);
        assert(s.subrange(0, m + 1).drop_last() =~= s.subrange(0, m));
    } else {
        assert(s.subrange(0, m) =~= s);
    }
}

#[verifier::loop_isolation(false)]
pub fn qnt_rm_unused(conclusion: &[Term], premises: &[&ProofCommand], args: &[ProofArg]) -> (r:
    Option<()>)
    ensures
        r is Some <==> qnt_rm_unused_holds(Term::views(conclusion@)),
{
    broadcast use Term::lemma_views;

    if conclusion.len() != 1 {
        return None;
    }
    let (left, right) = conclusion[0].binary(Operator::Equals)?;
    let (q_1, bindings_1, phi_1) = match left {
        Term::Quant(q, b, t) => (q, b, t),
        _ => {
            return None;
        },
    };
    let (q_2, bindings_2, phi_2) = match right {
        Term::Quant(q, b, t) => (q, b, t),
        _ => {
            return None;
        },
    };
    let ghost b1 = binding_views(bindings_1@);
    let ghost b2 = binding_views(bindings_2@);
    assert(left@ == SpecTerm::Quant(*q_1, b1, Box::new(phi_1@)));
    assert(right@ == SpecTerm::Quant(*q_2, b2, Box::new(phi_2@)));
    if *q_1 != *q_2 || !phi_1.equals(phi_2) {
        return None;
    }
    let mut k: usize = 0;
    let mut i: usize = 0;
    while i < bindings_1.len()
        invariant
            i <= b1.len(),
            k <= b2.len(),
            b2.subrange(0, k as int) == used_bindings(b1.subrange(0, i as int), phi_1@),
        decreases b1.len() - i,
    {
        let (name, sort) = (&bindings_1[i].0, &bindings_1[i].1);
        assert(b1[i as int] == (name@, sort@));
        assert(b1.subrange(0, i + 1).drop_last() =~= b1.subrange(0, i as int));
        if occurs_free_var(name, sort, phi_1) {
            if k >= bindings_2.len() || !(bindings_2[k].0 == *name) || !bindings_2[k].1.equals(sort) {
                proof {
                    lemma_used_prefix(b1, phi_1@, i + 1);
                    if k < b2.len() {
                        assert(b2[k as int] == (bindings_2@[k as int].0@, bindings_2@[k as int].1@));
                    }
                    assert(b1.subrange(0, b1.len() as int) =~= b1);
                }
                return None;
            }
            assert(b2[k as int] == (bindings_2@[k as int].0@, bindings_2@[k as int].1@));
            assert(b2.subrange(0, k + 1) =~= b2.subrange(0, k as int).push(b1[i as int]));
            k = k + 1;
        }
        i = i + 1;
    }
    assert(b1.subrange(0, b1.len() as int) =~= b1);
    assert(b2.subrange(0, b2.len() as int) =~= b2);
    to_option(k == bindings_2.len())
}


/// The dual of a connective or quantifier under negation.
pub open spec fn dual_op(op: Operator) -> Operator {
    if op == Operator::And {
        Operator::Or
    } else {
        Operator::And
    }
}

pub open spec fn dual_quantifier(q: Quantifier) -> Quantifier {
    if q == Quantifier::Forall {
        Quantifier::Exists
    } else {
        Quantifier::Forall
    }
}

/// `(op (or a b) (or c d))` or, when `polarity` is false, `(or (and a b) (and c d))`.
pub open spec fn two_clauses(polarity: bool, a: SpecTerm, b: SpecTerm, c: SpecTerm, d: SpecTerm) -> SpecTerm {
    if polarity {
        SpecTerm::Op(
            Operator::And,
            seq![SpecTerm::Op(Operator::Or, seq![a, b]), SpecTerm::Op(Operator::Or, seq![c, d])],
        )
    } else {
        SpecTerm::Op(
            Operator::Or,
            seq![SpecTerm::Op(Operator::And, seq![a, b]), SpecTerm::Op(Operator::And, seq![c, d])],
        )
    }
}

/// The negation normal form of `t`, or of `(not t)` when `polarity` is false: negations are
/// pushed down to the atoms, flipping `and`/`or` and `forall`/`exists`; `(=> p q)` becomes
/// `(or (not p) q)` and `(ite p q r)` becomes `(and (or (not p) q) (or p r))`, each negated
/// dually.
pub open spec fn nnf(t: SpecTerm, polarity: bool) -> SpecTerm
    decreases t, 0nat,
{
    match t {
        SpecTerm::Op(op, args) => if op == Operator::Not && args.len() == 1 {
            nnf(args[0], !polarity)
        } else if op == Operator::And || op == Operator::Or {
            SpecTerm::Op(
                if polarity {
                    op
                } else {
                    dual_op(op)
                },
                nnf_all(args, polarity),
            )
        } else if op == Operator::Implies && args.len() == 2 {
            if polarity {
                SpecTerm::Op(Operator::Or, seq![nnf(args[0], false), nnf(args[1], true)])
            } else {
                SpecTerm::Op(Operator::And, seq![nnf(args[0], true), nnf(args[1], false)])
            }
        } else if op == Operator::Ite && args.len() == 3 {
            two_clauses(
                polarity,
                nnf(args[0], !polarity),
                nnf(args[1], polarity),
                nnf(args[0], polarity),
                nnf(args[2], polarity),
            )
        } else if polarity {
            t
        } else {
            SpecTerm::not(t)
        },
        SpecTerm::Quant(q, bs, body) => SpecTerm::Quant(
            if polarity {
                q
            } else {
                dual_quantifier(q)
            },
            bs,
            Box::new(nnf(*body, polarity)),
        ),
        _ => if polarity {
            t
        } else {
            SpecTerm::not(t)
        },
    }
}

/// The negation normal form of each term of a sequence.
pub open spec fn nnf_all(ts: Seq<SpecTerm>, polarity: bool) -> Seq<SpecTerm>
    decreases ts, 1nat,
{
    Seq::new(
        ts.len(),
        |i: int|
            if 0 <= i < ts.len() {
                nnf(ts[i], polarity)
            } else {
                SpecTerm::String(Seq::empty())
            },
    )
}

fn not_of(t: Term) -> (r: Term)
    ensures
        r@ == SpecTerm::not(t@),
{
    broadcast use Term::lemma_views;

    let r = Term::Op(Operator::Not, vec![t]);
    assert(Term::views(r->Op_1@) =~= seq![t@]);
    r
}

fn op_of2(op: Operator, a: Term, b: Term) -> (r: Term)
    ensures
        r@ == SpecTerm::Op(op, seq![a@, b@]),
{
    broadcast use Term::lemma_views;

    let r = Term::Op(op, vec![a, b]);
    assert(Term::views(r->Op_1@) =~= seq![a@, b@]);
    r
}

/// The negation normal form of `term`, or of its negation when `polarity` is false.
#[verifier::loop_isolation(false)]
pub fn negative_normal_form(term: &Term, polarity: bool) -> (r: Term)
    ensures
        r@ == nnf(term@, polarity),
    decreases term, 0nat,
{
    broadcast use Term::lemma_views;

    match term {
        Term::Op(op, args) => {
            let ghost xs = Term::views(args@);
            assert(term@ == SpecTerm::Op(*op, xs));
            if *op == Operator::Not && args.len() == 1 {
                assert(decreases_to!(term => args@[0]));
                negative_normal_form(&args[0], !polarity)
            } else if *op == Operator::And || *op == Operator::Or {
                let new_op = if polarity {
                    *op
                } else if *op == Operator::And {
                    Operator::Or
                } else {
                    Operator::And
                };
                let mut new_args: Vec<Term> = Vec::new();
                let mut i: usize = 0;
                while i < args.len()
                    invariant
                        i <= args@.len(),
                        new_args@.len() == i,
                        forall|j: int| 0 <= j < i ==> #[trigger] new_args@[j]@ == nnf(args@[j]@, polarity),
                    decreases args@.len() - i,
                {
                    assert(decreases_to!(term => args@[i as int]));
                    new_args.push(negative_normal_form(&args[i], polarity));
                    i = i + 1;
                }
                assert(Term::views(new_args@) =~= nnf_all(xs, polarity));
                Term::Op(new_op, new_args)
            } else if *op == Operator::Implies && args.len() == 2 {
                assert(decreases_to!(term => args@[0]));
                assert(decreases_to!(term => args@[1]));
                if polarity {
                    let a = negative_normal_form(&args[0], false);
                    let b = negative_normal_form(&args[1], true);
                    op_of2(Operator::Or, a, b)
                } else {
                    let a = negative_normal_form(&args[0], true);
                    let b = negative_normal_form(&args[1], false);
                    op_of2(Operator::And, a, b)
                }
            } else if *op == Operator::Ite && args.len() == 3 {
                assert(decreases_to!(term => args@[0]));
                assert(decreases_to!(term => args@[1]));
                assert(decreases_to!(term => args@[2]));
                let a = negative_normal_form(&args[0], !polarity);
                let b = negative_normal_form(&args[1], polarity);
                let c = negative_normal_form(&args[0], polarity);
                let d = negative_normal_form(&args[2], polarity);
                let (outer, inner) = if polarity {
                    (Operator::And, Operator::Or)
                } else {
                    (Operator::Or, Operator::And)
                };
                let left = op_of2(inner, a, b);
                let right = op_of2(inner, c, d);
                op_of2(outer, left, right)
            } else if polarity {
                term.duplicate()
            } else {
                not_of(term.duplicate())
            }
        },
        Term::Quant(q, bs, body) => {
            let new_q = if polarity {
                *q
            } else if *q == Quantifier::Forall {
                Quantifier::Exists
            } else {
                Quantifier::Forall
            };
            let inner = negative_normal_form(body, polarity);
            Term::Quant(new_q, crate::ast::duplicate_bindings(bs), Box::new(inner))
        },
        _ => if polarity {
            term.duplicate()
        } else {
            not_of(term.duplicate())
        },
    }
}


/// `t` with the two sides of every binary equality swapped, at every depth.
pub open spec fn swap_equalities(t: SpecTerm) -> SpecTerm
    decreases t, 0nat,
{
    match t {
        SpecTerm::Op(op, args) => if op == Operator::Equals && args.len() == 2 {
            SpecTerm::Op(op, seq![swap_equalities(args[1]), swap_equalities(args[0])])
        } else {
            SpecTerm::Op(op, swap_equalities_all(args))
        },
        SpecTerm::App(f, args) => SpecTerm::App(
            Box::new(swap_equalities(*f)),
            swap_equalities_all(args),
        ),
        SpecTerm::Quant(q, bs, body) => SpecTerm::Quant(q, bs, Box::new(swap_equalities(*body))),
        _ => t,
    }
}

/// Each term of a sequence with the sides of its equalities swapped.
pub open spec fn swap_equalities_all(ts: Seq<SpecTerm>) -> Seq<SpecTerm>
    decreases ts, 1nat,
{
    Seq::new(
        ts.len(),
        |i: int|
            if 0 <= i < ts.len() {
                swap_equalities(ts[i])
            } else {
                SpecTerm::String(Seq::empty())
            },
    )
}

/// The arguments with the sides of every equality in their terms swapped.
pub open spec fn swap_args(args: Seq<SpecArg>) -> Seq<SpecArg> {
    Seq::new(
        args.len(),
        |i: int|
            match args[i] {
                SpecArg::Term(t) => SpecArg::Term(swap_equalities(t)),
                SpecArg::Assign(name, value) => SpecArg::Assign(name, swap_equalities(value)),
            },
    )
}

/// The substitution with the sides of every equality in its values swapped.
pub open spec fn swap_values(subs: Seq<(SpecTerm, SpecTerm)>) -> Seq<(SpecTerm, SpecTerm)> {
    Seq::new(subs.len(), |i: int| (subs[i].0, swap_equalities(subs[i].1)))
}

proof fn lemma_swap_sort(t: SpecTerm)
    ensures
        swap_equalities(t).sort() == t.sort(),
    decreases t,
{
    match t {
        SpecTerm::Op(op, args) => {
            if !(op == Operator::Equals && args.len() == 2) {
                let sw = swap_equalities_all(args);
                if args.len() >= 1 {
                    assert(decreases_to!(t => args[0]));
                    lemma_swap_sort(args[0]);
                    assert(sw[0] == swap_equalities(args[0]));
                }
                if args.len() >= 2 {
                    assert(decreases_to!(t => args[1]));
                    lemma_swap_sort(args[1]);
                    assert(sw[1] == swap_equalities(args[1]));
                }
            }
        },
        SpecTerm::App(f, _) => {
            lemma_swap_sort(*f);
        },
        _ => {},
    }
}

proof fn lemma_lookup_swapped(subs: Seq<(SpecTerm, SpecTerm)>, t: SpecTerm)
    ensures
        lookup(swap_values(subs), t) == match lookup(subs, t) {
            Some(v) => Some(swap_equalities(v)),
            None => None::<SpecTerm>,
        },
    decreases subs.len(),
{
    if subs.len() > 0 {
        assert(swap_values(subs).skip(1) =~= swap_values(subs.skip(1)));
        lemma_lookup_swapped(subs.skip(1), t);
    }
}

/// Substituting in the swapped term, with swapped values, is swapping the substituted term.
proof fn lemma_swap_substitute(t: SpecTerm, subs: Seq<(SpecTerm, SpecTerm)>, shadowed: Seq<Seq<char>>)
    ensures
        substitute(swap_equalities(t), swap_values(subs), shadowed) == swap_equalities(
            substitute(t, subs, shadowed),
        ),
    decreases t,
{
    let sv = swap_values(subs);
    match t {
        SpecTerm::Var(_, _) => {
            lemma_lookup_swapped(subs, t);
        },
        SpecTerm::Op(op, args) => {
            let sub_args = substitute_all(args, subs, shadowed);
            assert forall|i: int| 0 <= i < args.len() implies substitute(
                swap_equalities(#[trigger] args[i]),
                sv,
                shadowed,
            ) == swap_equalities(substitute(args[i], subs, shadowed)) by {
                assert(decreases_to!(t => args[i]));
                lemma_swap_substitute(args[i], subs, shadowed);
            }
            if op == Operator::Equals && args.len() == 2 {
                let swapped = seq![swap_equalities(args[1]), swap_equalities(args[0])];
                assert(substitute_all(swapped, sv, shadowed) =~= seq![
                    swap_equalities(sub_args[1]),
                    swap_equalities(sub_args[0]),
                ]);
            } else {
                assert(substitute_all(swap_equalities_all(args), sv, shadowed) =~= swap_equalities_all(
                    sub_args,
                ));
            }
        },
        SpecTerm::App(f, args) => {
            lemma_swap_substitute(*f, subs, shadowed);
            let sub_args = substitute_all(args, subs, shadowed);
            assert forall|i: int| 0 <= i < args.len() implies substitute(
                swap_equalities(#[trigger] args[i]),
                sv,
                shadowed,
            ) == swap_equalities(substitute(args[i], subs, shadowed)) by {
                assert(decreases_to!(t => args[i]));
                lemma_swap_substitute(args[i], subs, shadowed);
            }
            assert(substitute_all(swap_equalities_all(args), sv, shadowed) =~= swap_equalities_all(
                sub_args,
            ));
        },
        SpecTerm::Quant(q, bs, body) => {
            lemma_swap_substitute(*body, subs, shadowed + binding_names(bs));
        },
        _ => {},
    }
}

/// Equality modulo reordering of sequences is element-wise equality modulo reordering.
proof fn lemma_eq_modulo_reordering_all(x: Seq<SpecTerm>, y: Seq<SpecTerm>)
    ensures
        eq_modulo_reordering_all(x, y) == (x.len() == y.len() && forall|i: int|
            0 <= i < x.len() ==> #[trigger] eq_modulo_reordering(x[i], y[i])),
    decreases x.len(),
{
    if x.len() == y.len() && x.len() > 0 {
        let n = x.len() - 1;
        let xp = x.subrange(0, n as int);
        let yp = y.subrange(0, n as int);
        lemma_eq_modulo_reordering_all(xp, yp);
        if eq_modulo_reordering_all(x, y) {
            assert forall|i: int| 0 <= i < x.len() implies #[trigger] eq_modulo_reordering(x[i], y[i]) by {
                if i < n {
                    assert(xp[i] == x[i] && yp[i] == y[i]);
                }
            }
        }
        if forall|i: int| 0 <= i < x.len() ==> #[trigger] eq_modulo_reordering(x[i], y[i]) {
            assert forall|i: int| 0 <= i < xp.len() implies #[trigger] eq_modulo_reordering(xp[i], yp[i]) by {
                assert(xp[i] == x[i] && yp[i] == y[i]);
                assert(eq_modulo_reordering(x[i], y[i]));
            }
            assert(eq_modulo_reordering(x[n as int], y[n as int]));
        }
    }
}

/// Swapping the sides of every equality in both terms keeps them equal modulo reordering.
proof fn lemma_swap_keeps_eq_modulo_reordering(a: SpecTerm, b: SpecTerm)
    requires
        eq_modulo_reordering(a, b),
    ensures
        eq_modulo_reordering(swap_equalities(a), swap_equalities(b)),
    decreases a,
{
    match (a, b) {
        (SpecTerm::Op(o1, x), SpecTerm::Op(o2, y)) => {
            lemma_eq_modulo_reordering_all(x, y);
            if o1 == Operator::Equals && x.len() == 2 && y.len() == 2 {
                let sx = seq![swap_equalities(x[1]), swap_equalities(x[0])];
                let sy = seq![swap_equalities(y[1]), swap_equalities(y[0])];
                assert(decreases_to!(a => x[0]));
                assert(decreases_to!(a => x[1]));
                lemma_eq_modulo_reordering_all(sx, sy);
                if eq_modulo_reordering_all(x, y) {
                    assert(eq_modulo_reordering(x[0], y[0]) && eq_modulo_reordering(x[1], y[1]));
                    lemma_swap_keeps_eq_modulo_reordering(x[0], y[0]);
                    lemma_swap_keeps_eq_modulo_reordering(x[1], y[1]);
                    assert(eq_modulo_reordering(sx[0], sy[0]) && eq_modulo_reordering(sx[1], sy[1]));
                } else {
                    lemma_swap_keeps_eq_modulo_reordering(x[0], y[1]);
                    lemma_swap_keeps_eq_modulo_reordering(x[1], y[0]);
                }
            } else {
                let sx = swap_equalities_all(x);
                let sy = swap_equalities_all(y);
                assert(eq_modulo_reordering_all(x, y));
                assert forall|i: int| 0 <= i < sx.len() implies #[trigger] eq_modulo_reordering(sx[i], sy[i]) by {
                    assert(decreases_to!(a => x[i]));
                    assert(eq_modulo_reordering(x[i], y[i]));
                    lemma_swap_keeps_eq_modulo_reordering(x[i], y[i]);
                }
                lemma_eq_modulo_reordering_all(sx, sy);
            }
        },
        (SpecTerm::App(f, x), SpecTerm::App(g, y)) => {
            lemma_swap_keeps_eq_modulo_reordering(*f, *g);
            lemma_eq_modulo_reordering_all(x, y);
            let sx = swap_equalities_all(x);
            let sy = swap_equalities_all(y);
            assert forall|i: int| 0 <= i < sx.len() implies #[trigger] eq_modulo_reordering(sx[i], sy[i]) by {
                assert(decreases_to!(a => x[i]));
                assert(eq_modulo_reordering(x[i], y[i]));
                lemma_swap_keeps_eq_modulo_reordering(x[i], y[i]);
            }
            lemma_eq_modulo_reordering_all(sx, sy);
        },
        (SpecTerm::Quant(_, _, t1), SpecTerm::Quant(_, _, t2)) => {
            lemma_swap_keeps_eq_modulo_reordering(*t1, *t2);
        },
        _ => {},
    }
}

/// Round trip: a `forall_inst` step still passes when the two sides of every equality in its
/// conclusion and in its arguments are swapped.
pub proof fn lemma_forall_inst_swapped_sides(c: Seq<SpecTerm>, args: Seq<SpecArg>)
    requires
        forall_inst_holds(c, args),
    ensures
        forall_inst_holds(swap_equalities_all(c), swap_args(args)),
{
    broadcast use crate::ast::group_term_shapes;

    let d = c[0].op_args(Operator::Or)->0;
    let q = d[0].negated()->0;
    let (bs, phi) = match q {
        SpecTerm::Quant(_, bs, phi) => (bs, *phi),
        _ => (seq![], q),
    };
    let sc = swap_equalities_all(c);
    let sa = swap_args(args);
    let sd = swap_equalities_all(d);
    assert(c[0] == SpecTerm::Op(Operator::Or, d));
    assert(sc[0] == SpecTerm::Op(Operator::Or, sd));
    assert(d[0] == SpecTerm::not(q));
    assert(sd[0] == swap_equalities(SpecTerm::not(q)));
    assert(swap_equalities_all(seq![q]) =~= seq![swap_equalities(q)]);
    assert(sd[0] == SpecTerm::not(swap_equalities(q)));
    assert(sd[0].negated() == Some(swap_equalities(q)));
    assert forall|i: int| 0 <= i < sa.len() implies #[trigger] assigns_binding(sa[i], bs[i]) by {
        assert(assigns_binding(args[i], bs[i]));
        lemma_swap_sort(args[i]->Assign_1);
    }
    let inst = instantiation(bs, args);
    assert forall|i: int| 0 <= i < bs.len() implies #[trigger] instantiation(bs, sa)[i] == swap_values(inst)[i] by {
        assert(assigns_binding(args[i], bs[i]));
    }
    assert(instantiation(bs, sa) =~= swap_values(inst));
    lemma_swap_substitute(phi, inst, seq![]);
    lemma_swap_keeps_eq_modulo_reordering(substitute(phi, inst, seq![]), d[1]);
}

} // verus!
