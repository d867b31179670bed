use super::{get_single_term_from_command, to_option};
use crate::ast::{group_term_shapes, terms_equal, Operator, SpecSort, SpecTerm, Term};
use crate::commands::{premise_views, single_term, ProofArg, ProofCommand, SpecCommand};
use vstd::prelude::*;

verus! {

/// One premise whose single term is `(and c1 ... cn)`; the conclusion is `[ci]` for some `i`.
pub open spec fn and_holds(c: Seq<SpecTerm>, premises: Seq<SpecCommand>) -> bool {
    &&& premises.len() == 1
    &&& c.len() == 1
    &&& single_term(premises[0]) matches Some(t) && t.op_args(Operator::And) matches Some(cs)
        && cs.contains(c[0])
}

#[verifier::loop_isolation(false)]
pub fn and(conclusion: &[Term], premises: &[&ProofCommand], args: &[ProofArg]) -> (r: Option<()>)
    ensures
        r is Some <==> and_holds(Term::views(conclusion@), premise_views(premises@)),
{
    broadcast use Term::lemma_views;

    if premises.len() != 1 || conclusion.len() != 1 {
        return None;
    }
    let and_term = get_single_term_from_command(premises[0])?;
    let and_contents = and_term.op_args(Operator::And)?;
    let ghost cs = Term::views(and_contents@);
    let mut i: usize = 0;
    while i < and_contents.len()
        invariant
            i <= and_contents@.len(),
            cs == Term::views(and_contents@),
            conclusion@.len() == 1,
            forall|j: int| 0 <= j < i ==> cs[j] != conclusion@[0]@,
        decreases and_contents@.len() - i,
    {
        if and_contents[i].equals(&conclusion[0]) {
            assert(cs[i as int] == conclusion@[0]@);
            assert(cs.contains(conclusion@[0]@));
            return Some(());
        }
        i = i + 1;
    }
    None
}

/// One premise whose single term is `(or c1 ... cn)`; the conclusion is `[c1, ..., cn]`.
pub open spec fn or_holds(c: Seq<SpecTerm>, premises: Seq<SpecCommand>) -> bool {
    &&& premises.len() == 1
    &&& single_term(premises[0]) matches Some(t) && t.op_args(Operator::Or) == Some(c)
}

pub fn or(conclusion: &[Term], premises: &[&ProofCommand], args: &[ProofArg]) -> (r: Option<()>)
    ensures
        r is Some <==> or_holds(Term::views(conclusion@), premise_views(premises@)),
{
    if premises.len() != 1 {
        return None;
    }
    let or_term = get_single_term_from_command(premises[0])?;
    let or_contents = or_term.op_args(Operator::Or)?;
    to_option(terms_equal(or_contents.as_slice(), conclusion))
}

/// One premise `(=> p1 p2)`; the conclusion is `[(not p1), p2]`.
pub open spec fn implies_holds(c: Seq<SpecTerm>, premises: Seq<SpecCommand>) -> bool {
    &&& premises.len() == 1
    &&& c.len() == 2
    &&& single_term(premises[0]) matches Some(t) && t.binary(Operator::Implies) matches Some(
        parts,
    ) && c[0] == SpecTerm::not(parts.0) && c[1] == parts.1
}

pub fn implies(conclusion: &[Term], premises: &[&ProofCommand], args: &[ProofArg]) -> (r: Option<
    (),
>)
    ensures
        r is Some <==> implies_holds(Term::views(conclusion@), premise_views(premises@)),
{
    broadcast use Term::lemma_views, group_term_shapes;

    if premises.len() != 1 || conclusion.len() != 2 {
        return None;
    }
    let premise_term = get_single_term_from_command(premises[0])?;
    let (phi_1, phi_2) = premise_term.binary(Operator::Implies)?;
    let negated = conclusion[0].remove_negation()?;
    to_option(phi_1.equals(negated) && phi_2.equals(&conclusion[1]))
}


/// Every pair `(xi, xj)` with `i < j`, in lexicographic order of `(i, j)`.
pub open spec fn ordered_pairs(xs: Seq<SpecTerm>) -> Seq<(SpecTerm, SpecTerm)>
    decreases xs.len(),
{
    if xs.len() == 0 {
        seq![]
    } else {
        first_pairs(xs) + ordered_pairs(xs.skip(1))
    }
}

/// The pairs of the first element with each later one.
pub open spec fn first_pairs(xs: Seq<SpecTerm>) -> Seq<(SpecTerm, SpecTerm)> {
    Seq::new((xs.len() - 1) as nat, |j: int| (xs[0], xs[j + 1]))
}

/// `(not (= a b))`, or the same with the sides swapped.
pub open spec fn is_inequality_of(t: SpecTerm, a: SpecTerm, b: SpecTerm) -> bool {
    t == SpecTerm::not(SpecTerm::equality(a, b)) || t == SpecTerm::not(SpecTerm::equality(b, a))
}

/// The right-hand side of the elimination of `(distinct x1 ... xn)`.
pub open spec fn distinct_expansion_holds(xs: Seq<SpecTerm>, rhs: SpecTerm) -> bool {
    if xs.len() == 2 {
        is_inequality_of(rhs, xs[0], xs[1])
    } else if xs.len() > 2 && forall|i: int| 0 <= i < xs.len() ==> #[trigger] xs[i].sort()
        == SpecSort::Bool {
        rhs.is_bool_false()
    } else if xs.len() > 2 {
        rhs.op_args(Operator::And) matches Some(cs) && cs.len() == ordered_pairs(xs).len() && forall|
            k: int,
        |
            0 <= k < cs.len() ==> is_inequality_of(
                #[trigger] cs[k],
                ordered_pairs(xs)[k].0,
                ordered_pairs(xs)[k].1,
            )
    } else {
        false
    }
}

/// `[(= (distinct x1 ... xn) rhs)]`: for two arguments `rhs` is their inequality; for more
/// arguments, all boolean, it is `false`; otherwise it is the conjunction of the inequalities of
/// every pair, in order.
pub open spec fn distinct_elim_holds(c: Seq<SpecTerm>) -> bool {
    &&& c.len() == 1
    &&& c[0].binary(Operator::Equals) matches Some(parts) && parts.0.op_args(Operator::Distinct)
        matches Some(xs) && distinct_expansion_holds(xs, parts.1)
}

fn is_inequality(t: &Term, a: &Term, b: &Term) -> (r: bool)
    ensures
        r == is_inequality_of(t@, a@, b@),
{
    broadcast use group_term_shapes;

    match t.remove_negation() {
        Some(inner) => match inner.binary(Operator::Equals) {
            Some((x, y)) => (x.equals(a) && y.equals(b)) || (x.equals(b) && y.equals(a)),
            None => false,
        },
        None => false,
    }
}

proof fn lemma_pairs_unfold(xs: Seq<SpecTerm>, i: int)
    requires
        0 <= i < xs.len(),
    ensures
        ordered_pairs(xs.skip(i)) == first_pairs(xs.skip(i)) + ordered_pairs(xs.skip(i + 1)),
        first_pairs(xs.skip(i)).len() == xs.len() - i - 1,
        forall|j: int|
            0 <= j < xs.len() - i - 1 ==> #[trigger] first_pairs(xs.skip(i))[j] == (xs[i], xs[i + 1 + j]),
{
    assert(xs.skip(i).skip(1) =~= xs.skip(i + 1));
}

#[verifier::loop_isolation(false)]
pub fn distinct_elim(conclusion: &[Term], premises: &[&ProofCommand], args: &[ProofArg]) -> (r:
    Option<()>)
    ensures
        r is Some <==> distinct_elim_holds(Term::views(conclusion@)),
{
    broadcast use Term::lemma_views;

    if conclusion.len() != 1 {
        return None;
    }
    let (distinct_term, second_term) = conclusion[0].binary(Operator::Equals)?;
    let distinct_args = distinct_term.op_args(Operator::Distinct)?;
    let ghost xs = Term::views(distinct_args@);
    let n = distinct_args.len();
    if n < 2 {
        return None;
    }
    if n == 2 {
        return to_option(is_inequality(second_term, &distinct_args[0], &distinct_args[1]));
    }
    let mut all_bool = true;
    let mut i: usize = 0;
    while i < n
        invariant
            i <= n,
            all_bool == forall|j: int| 0 <= j < i ==> #[trigger] xs[j].sort() == SpecSort::Bool,
        decreases n - i,
    {
        let s = distinct_args[i].sort();
        assert(xs[i as int] == distinct_args@[i as int]@);
        match s {
            crate::ast::Sort::Bool => {},
            _ => {
                assert(xs[i as int].sort() != SpecSort::Bool);
                all_bool = false;
            },
        }
        i = i + 1;
    }
    if all_bool {
        return to_option(second_term.is_bool_false());
    }
    let got = second_term.op_args(Operator::And)?;
    let ghost cs = Term::views(got@);
    let ghost pairs = ordered_pairs(xs);
    let mut k: usize = 0;
    let mut i: usize = 0;
    assert(pairs.skip(0) =~= pairs);
    assert(xs.skip(0) =~= xs);
    while i < n
        invariant
            i <= n,
            k <= got@.len(),
            k <= pairs.len(),
            pairs.skip(k as int) == ordered_pairs(xs.skip(i as int)),
            forall|m: int| 0 <= m < k ==> is_inequality_of(#[trigger] cs[m], pairs[m].0, pairs[m].1),
        decreases n - i,
    {
        proof {
            lemma_pairs_unfold(xs, i as int);
        }
        let ghost row = first_pairs(xs.skip(i as int));
        let mut j: usize = i + 1;
        while j < n
            invariant
                i < j <= n,
                k <= got@.len(),
                k <= pairs.len(),
                pairs.skip(k as int) == row.skip(j - i - 1) + ordered_pairs(xs.skip(i + 1)),
                forall|m: int| 0 <= m < k ==> is_inequality_of(#[trigger] cs[m], pairs[m].0, pairs[m].1),
            decreases n - j,
        {
            assert(pairs.skip(k as int)[0] == row[j - i - 1]);
            if k >= got.len() {
                assert(pairs.len() > k);
                return None;
            }
            if !is_inequality(&got[k], &distinct_args[i], &distinct_args[j]) {
                assert(pairs[k as int] == (xs[i as int], xs[j as int]));
                assert(cs[k as int] == got@[k as int]@);
                assert(!is_inequality_of(cs[k as int], pairs[k as int].0, pairs[k as int].1));
                return None;
            }
            assert(pairs.skip(k + 1) =~= pairs.skip(k as int).skip(1));
            assert(row.skip(j - i) + ordered_pairs(xs.skip(i + 1)) =~= (row.skip(j - i - 1)
                + ordered_pairs(xs.skip(i + 1))).skip(1));
            k = k + 1;
            j = j + 1;
        }
        assert(row.skip(j - i - 1) =~= Seq::<(SpecTerm, SpecTerm)>::empty());
        assert(row.skip(j - i - 1) + ordered_pairs(xs.skip(i + 1)) =~= ordered_pairs(xs.skip(i + 1)));
        i = i + 1;
    }
    assert(xs.skip(n as int) =~= Seq::<SpecTerm>::empty());
    assert(ordered_pairs(xs.skip(n as int)).len() == 0);
    assert(k == pairs.len());
    to_option(k == got.len())
}


/// `(op (op ... (op a1 a2) ...) an)`.
pub open spec fn left_nest(op: Operator, args: Seq<SpecTerm>) -> SpecTerm
    decreases args.len(),
{
    if args.len() <= 1 {
        args[0]
    } else {
        SpecTerm::Op(op, seq![left_nest(op, args.drop_last()), args.last()])
    }
}

/// `(op a1 (op a2 (op ... an)))`.
pub open spec fn right_nest(op: Operator, args: Seq<SpecTerm>) -> SpecTerm
    decreases args.len(),
{
    if args.len() <= 1 {
        args[0]
    } else {
        SpecTerm::Op(op, seq![args[0], right_nest(op, args.skip(1))])
    }
}

/// `(op a1 a2), (op a2 a3), ..., (op an-1 an)`.
pub open spec fn chain_links(op: Operator, args: Seq<SpecTerm>) -> Seq<SpecTerm> {
    Seq::new(
        if args.len() == 0 {
            0
        } else {
            (args.len() - 1) as nat
        },
        |k: int| SpecTerm::Op(op, seq![args[k], args[k + 1]]),
    )
}

/// `[(= (op a1 ... an) result)]` where `result` is the binary form of the n-ary application:
/// the conjunction of adjacent links for `=`, left nesting for `+`, `-` and `*`, right nesting
/// for `=>`.
pub open spec fn nary_elim_holds(c: Seq<SpecTerm>) -> bool {
    &&& c.len() == 1
    &&& c[0].binary(Operator::Equals) matches Some(parts) && parts.0 matches SpecTerm::Op(op, args)
        && match op {
        Operator::Equals => parts.1.op_args(Operator::And) == Some(chain_links(op, args)),
        Operator::Add | Operator::Sub | Operator::Mult => args.len() >= 1 && parts.1 == left_nest(
            op,
            args,
        ),
        Operator::Implies => args.len() >= 1 && parts.1 == right_nest(op, args),
        _ => false,
    }
}

/// Whether `result` is the left nesting of the first `hi` arguments.
fn check_left_assoc(op: Operator, args: &Vec<Term>, hi: usize, result: &Term) -> (r: bool)
    requires
        1 <= hi <= args@.len(),
    ensures
        r == (result@ == left_nest(op, Term::views(args@).subrange(0, hi as int))),
    decreases hi,
{
    broadcast use Term::lemma_views, group_term_shapes;

    let ghost xs = Term::views(args@).subrange(0, hi as int);
    if hi == 1 {
        return args[0].equals(result);
    }
    assert(xs.drop_last() =~= Term::views(args@).subrange(0, hi - 1));
    match result.binary(op) {
        Some((nested, head)) => head.equals(&args[hi - 1]) && check_left_assoc(op, args, hi - 1, nested),
        None => false,
    }
}

/// Whether `result` is the right nesting of the arguments from `lo` on.
fn check_right_assoc(op: Operator, args: &Vec<Term>, lo: usize, result: &Term) -> (r: bool)
    requires
        lo < args@.len(),
    ensures
        r == (result@ == right_nest(op, Term::views(args@).subrange(lo as int, args@.len() as int))),
    decreases args@.len() - lo,
{
    broadcast use Term::lemma_views, group_term_shapes;

    let ghost xs = Term::views(args@).subrange(lo as int, args@.len() as int);
    if lo == args.len() - 1 {
        return args[lo].equals(result);
    }
    assert(xs.skip(1) =~= Term::views(args@).subrange(lo + 1, args@.len() as int));
    match result.binary(op) {
        Some((head, nested)) => head.equals(&args[lo]) && check_right_assoc(op, args, lo + 1, nested),
        None => false,
    }
}

#[verifier::loop_isolation(false)]
pub fn nary_elim(conclusion: &[Term], premises: &[&ProofCommand], args: &[ProofArg]) -> (r: Option<
    (),
>)
    ensures
        r is Some <==> nary_elim_holds(Term::views(conclusion@)),
{
    broadcast use Term::lemma_views, group_term_shapes;

    if conclusion.len() != 1 {
        return None;
    }
    let (application, result) = conclusion[0].binary(Operator::Equals)?;
    match application {
        Term::Op(op, op_args) => {
            let ghost xs = Term::views(op_args@);
            assert(application@ == SpecTerm::Op(*op, xs));
            match op {
                Operator::Equals => {
                    let chain = result.op_args(Operator::And)?;
                    let ghost cs = Term::views(chain@);
                    let ghost links = chain_links(*op, xs);
                    let expected_len: usize = if op_args.len() == 0 {
                        0
                    } else {
                        op_args.len() - 1
                    };
                    if chain.len() != expected_len {
                        assert(cs.len() != links.len());
                        return None;
                    }
                    let mut k: usize = 0;
                    while k < expected_len
                        invariant
                            k <= expected_len,
                            forall|m: int| 0 <= m < k ==> #[trigger] cs[m] == links[m],
                        decreases expected_len - k,
                    {
                        let ok = match chain[k].binary(Operator::Equals) {
                            Some((a, b)) => a.equals(&op_args[k]) && b.equals(&op_args[k + 1]),
                            None => false,
                        };
                        if !ok {
                            assert(cs[k as int] != links[k as int]);
                            return None;
                        }
                        assert(cs[k as int] == links[k as int]);
                        k = k + 1;
                    }
                    assert(cs =~= links);
                    Some(())
                },
                Operator::Add | Operator::Sub | Operator::Mult => {
                    if op_args.len() == 0 {
                        return None;
                    }
                    assert(xs.subrange(0, xs.len() as int) =~= xs);
                    to_option(check_left_assoc(*op, op_args, op_args.len(), result))
                },
                Operator::Implies => {
                    if op_args.len() == 0 {
                        return None;
                    }
                    assert(xs.subrange(0, xs.len() as int) =~= xs);
                    to_option(check_right_assoc(*op, op_args, 0, result))
                },
                _ => None,
            }
        },
        _ => None,
    }
}

} // verus!
