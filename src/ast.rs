use crate::number::{Numeral, Rational};
use vstd::prelude::*;

verus! {

/// The mathematical model of a sort.
pub enum SpecSort {
    Bool,
    Int,
    Real,
    String,
    Atom(Seq<char>, Seq<SpecSort>),
    Function(Seq<SpecSort>),
}

/// A sort: one of the built-in sorts, a declared sort applied to its arguments, or the sort of a
/// function, whose last element is the result sort.
pub enum Sort {
    Bool,
    Int,
    Real,
    String,
    Atom(String, Vec<Sort>),
    Function(Vec<Sort>),
}

impl Sort {
    /// The model of this sort.
    pub open spec fn spec_view(&self) -> SpecSort
        decreases self, 0nat,
    {
        match self {
            Sort::Bool => SpecSort::Bool,
            Sort::Int => SpecSort::Int,
            Sort::Real => SpecSort::Real,
            Sort::String => SpecSort::String,
            Sort::Atom(name, args) => SpecSort::Atom(name@, Sort::views(args@)),
            Sort::Function(args) => SpecSort::Function(Sort::views(args@)),
        }
    }

    /// The models of a sequence of sorts.
    pub open spec fn views(s: Seq<Sort>) -> Seq<SpecSort>
        decreases s, 1nat,
    {
        Seq::new(
            s.len(),
            |i: int|
                if 0 <= i < s.len() {
                    s[i].spec_view()
                } else {
                    SpecSort::Bool
                },
        )
    }

    /// The models of a sequence of sorts, element by element.
    pub broadcast proof fn lemma_views(s: Seq<Sort>)
        ensures
            #[trigger] Sort::views(s).len() == s.len(),
            forall|i: int| 0 <= i < s.len() ==> #[trigger] Sort::views(s)[i] == s[i]@,
    {
    }

    /// Structural equality of two sorts.
    pub fn equals(&self, other: &Sort) -> (r: bool)
        ensures
            r == (self@ == other@),
        decreases self,
    {
        broadcast use Sort::lemma_views;

        match (self, other) {
            (Sort::Bool, Sort::Bool) => true,
            (Sort::Int, Sort::Int) => true,
            (Sort::Real, Sort::Real) => true,
            (Sort::String, Sort::String) => true,
            (Sort::Atom(n1, a1), Sort::Atom(n2, a2)) => {
                if !(*n1 == *n2) {
                    return false;
                }
                let r = Sort::equals_all(a1, a2);
                proof {
                    assert(self@ == SpecSort::Atom(n1@, Sort::views(a1@)));
                    assert(other@ == SpecSort::Atom(n2@, Sort::views(a2@)));
                    if r {
                        assert(Sort::views(a1@) =~= Sort::views(a2@));
                    } else if Sort::views(a1@) == Sort::views(a2@) {
                        Sort::lemma_views(a1@);
                        Sort::lemma_views(a2@);
                        assert forall|i: int| 0 <= i < a1@.len() implies #[trigger] a1@[i]@ == a2@[i]@ by {
                            assert(Sort::views(a1@)[i] == Sort::views(a2@)[i]);
                        }
                    }
                }
                r
            },
            (Sort::Function(a1), Sort::Function(a2)) => {
                let r = Sort::equals_all(a1, a2);
                proof {
                    assert(self@ == SpecSort::Function(Sort::views(a1@)));
                    assert(other@ == SpecSort::Function(Sort::views(a2@)));
                    if r {
                        assert(Sort::views(a1@) =~= Sort::views(a2@));
                    } else if Sort::views(a1@) == Sort::views(a2@) {
                        Sort::lemma_views(a1@);
                        Sort::lemma_views(a2@);
                        assert forall|i: int| 0 <= i < a1@.len() implies #[trigger] a1@[i]@ == a2@[i]@ by {
                            assert(Sort::views(a1@)[i] == Sort::views(a2@)[i]);
                        }
                    }
                }
                r
            },
            _ => false,
        }
    }

    fn equals_all(a: &Vec<Sort>, b: &Vec<Sort>) -> (r: bool)
        ensures
            r == (a@.len() == b@.len() && forall|i: int| 0 <= i < a@.len() ==> #[trigger] a@[i]@ == b@[i]@),
        decreases a,
    {
        if a.len() != b.len() {
            return false;
        }
        let mut i: usize = 0;
        while i < a.len()
            invariant
                a@.len() == b@.len(),
                i <= a@.len(),
                forall|j: int| 0 <= j < i ==> #[trigger] a@[j]@ == b@[j]@,
            decreases a@.len() - i,
        {
            assert(decreases_to!(a => a@[i as int]));
            if !a[i].equals(&b[i]) {
                return false;
            }
            i = i + 1;
        }
        true
    }

    /// A copy of this sort.
    pub fn duplicate(&self) -> (r: Sort)
        ensures
            r@ == self@,
        decreases self,
    {
        broadcast use Sort::lemma_views;

        match self {
            Sort::Bool => Sort::Bool,
            Sort::Int => Sort::Int,
            Sort::Real => Sort::Real,
            Sort::String => Sort::String,
            Sort::Atom(name, args) => {
                let c = Sort::duplicate_all(args);
                assert(Sort::views(c@) =~= Sort::views(args@));
                Sort::Atom(name.clone(), c)
            },
            Sort::Function(args) => {
                let c = Sort::duplicate_all(args);
                assert(Sort::views(c@) =~= Sort::views(args@));
                Sort::Function(c)
            },
        }
    }

    fn duplicate_all(a: &Vec<Sort>) -> (r: Vec<Sort>)
        ensures
            r@.len() == a@.len(),
            forall|i: int| 0 <= i < a@.len() ==> #[trigger] r@[i]@ == a@[i]@,
        decreases a,
    {
        let mut r: Vec<Sort> = Vec::new();
        let mut i: usize = 0;
        while i < a.len()
            invariant
                i <= a@.len(),
                r@.len() == i,
                forall|j: int| 0 <= j < i ==> #[trigger] r@[j]@ == a@[j]@,
            decreases a@.len() - i,
        {
            assert(decreases_to!(a => a@[i as int]));
            r.push(a[i].duplicate());
            i = i + 1;
        }
        r
    }
}

impl View for Sort {
    type V = SpecSort;

    #[verifier::inline]
    open spec fn view(&self) -> SpecSort {
        self.spec_view()
    }
}


/// The operators of the term language.
#[derive(Clone, Copy, Debug, PartialEq, Eq, Structural)]
pub enum Operator {
    Not,
    And,
    Or,
    Implies,
    Equals,
    Distinct,
    Ite,
    Add,
    Sub,
    Mult,
    Div,
    LessThan,
    LessEq,
    GreaterThan,
    GreaterEq,
}

/// The two quantifiers.
#[derive(Clone, Copy, Debug, PartialEq, Eq, Structural)]
pub enum Quantifier {
    Forall,
    Exists,
}

/// The mathematical model of a term: a tree whose equality is structural equality.
pub enum SpecTerm {
    /// An integer constant: its sign and its little-endian base 2^32 digits.
    Integer(bool, Seq<u32>),
    /// A rational constant in lowest terms: sign, numerator digits, denominator digits.
    Real(bool, Seq<u32>, Seq<u32>),
    String(Seq<char>),
    Var(Seq<char>, SpecSort),
    Op(Operator, Seq<SpecTerm>),
    App(Box<SpecTerm>, Seq<SpecTerm>),
    Quant(Quantifier, Seq<(Seq<char>, SpecSort)>, Box<SpecTerm>),
}

/// A leaf of a term. The boolean constants are the variables `true` and `false` of sort `Bool`.
pub enum Terminal {
    Integer(Numeral),
    Real(Rational),
    String(String),
    Var(String, Sort),
}

/// A term: a terminal, an operator applied to arguments, a function term applied to
/// arguments, or a quantifier with its bindings and body.
pub enum Term {
    Terminal(Terminal),
    Op(Operator, Vec<Term>),
    App(Box<Term>, Vec<Term>),
    Quant(Quantifier, Vec<(String, Sort)>, Box<Term>),
}

/// The models of a list of bindings.
pub open spec fn binding_views(bs: Seq<(String, Sort)>) -> Seq<(Seq<char>, SpecSort)> {
    Seq::new(bs.len(), |i: int| (bs[i].0@, bs[i].1@))
}

impl Term {
    /// The model of this term.
    pub open spec fn spec_view(&self) -> SpecTerm
        decreases self, 0nat,
    {
        match self {
            Term::Terminal(Terminal::Integer(n)) => SpecTerm::Integer(n@.0, n@.1),
            Term::Terminal(Terminal::Real(q)) => SpecTerm::Real(q@.0, q@.1, q@.2),
            Term::Terminal(Terminal::String(s)) => SpecTerm::String(s@),
            Term::Terminal(Terminal::Var(name, sort)) => SpecTerm::Var(name@, sort@),
            Term::Op(op, args) => SpecTerm::Op(*op, Term::views(args@)),
            Term::App(f, args) => SpecTerm::App(Box::new(f.spec_view()), Term::views(args@)),
            Term::Quant(q, bs, body) => SpecTerm::Quant(
                *q,
                binding_views(bs@),
                Box::new(body.spec_view()),
            ),
        }
    }

    /// The models of a sequence of terms.
    pub open spec fn views(s: Seq<Term>) -> Seq<SpecTerm>
        decreases s, 1nat,
    {
        Seq::new(
            s.len(),
            |i: int|
                if 0 <= i < s.len() {
                    s[i].spec_view()
                } else {
                    SpecTerm::String(Seq::empty())
                },
        )
    }

    /// The models of a sequence of terms, element by element.
    pub broadcast proof fn lemma_views(s: Seq<Term>)
        ensures
            #[trigger] Term::views(s).len() == s.len(),
            forall|i: int| 0 <= i < s.len() ==> #[trigger] Term::views(s)[i] == s[i]@,
    {
    }
}

impl View for Term {
    type V = SpecTerm;

    #[verifier::inline]
    open spec fn view(&self) -> SpecTerm {
        self.spec_view()
    }
}


/// Structural equality of two lists of bindings.
pub fn bindings_equal(a: &Vec<(String, Sort)>, b: &Vec<(String, Sort)>) -> (r: bool)
    ensures
        r == (binding_views(a@) == binding_views(b@)),
{
    if a.len() != b.len() {
        assert(binding_views(a@).len() != binding_views(b@).len());
        return false;
    }
    let mut i: usize = 0;
    while i < a.len()
        invariant
            a@.len() == b@.len(),
            i <= a@.len(),
            forall|j: int| 0 <= j < i ==> binding_views(a@)[j] == binding_views(b@)[j],
        decreases a@.len() - i,
    {
        if !(a[i].0 == b[i].0) || !a[i].1.equals(&b[i].1) {
            assert(binding_views(a@)[i as int] != binding_views(b@)[i as int]);
            return false;
        }
        i = i + 1;
    }
    assert(binding_views(a@) =~= binding_views(b@));
    true
}

/// A copy of a list of bindings.
pub fn duplicate_bindings(a: &Vec<(String, Sort)>) -> (r: Vec<(String, Sort)>)
    ensures
        binding_views(r@) == binding_views(a@),
{
    let mut r: Vec<(String, Sort)> = Vec::new();
    let mut i: usize = 0;
    while i < a.len()
        invariant
            i <= a@.len(),
            r@.len() == i,
            forall|j: int| 0 <= j < i ==> binding_views(r@)[j] == binding_views(a@)[j],
        decreases a@.len() - i,
    {
        r.push((a[i].0.clone(), a[i].1.duplicate()));
        i = i + 1;
    }
    assert(binding_views(r@) =~= binding_views(a@));
    r
}

impl Term {
    /// Structural equality of two terms.
    pub fn equals(&self, other: &Term) -> (r: bool)
        ensures
            r == (self@ == other@),
        decreases self,
    {
        broadcast use Term::lemma_views;

        match (self, other) {
            (Term::Terminal(Terminal::Integer(a)), Term::Terminal(Terminal::Integer(b))) => a.equals(b),
            (Term::Terminal(Terminal::Real(a)), Term::Terminal(Terminal::Real(b))) => a.equals(b),
            (Term::Terminal(Terminal::String(a)), Term::Terminal(Terminal::String(b))) => *a == *b,
            (
                Term::Terminal(Terminal::Var(n1, s1)),
                Term::Terminal(Terminal::Var(n2, s2)),
            ) => *n1 == *n2 && s1.equals(s2),
            (Term::Op(o1, a1), Term::Op(o2, a2)) => {
                if *o1 != *o2 {
                    return false;
                }
                let r = Term::equals_all(a1, a2);
                proof {
                    Term::lemma_views_equal(a1@, a2@);
                }
                r
            },
            (Term::App(f1, a1), Term::App(f2, a2)) => {
                let r = f1.equals(f2) && Term::equals_all(a1, a2);
                proof {
                    Term::lemma_views_equal(a1@, a2@);
                }
                r
            },
            (Term::Quant(q1, b1, t1), Term::Quant(q2, b2, t2)) => {
                *q1 == *q2 && bindings_equal(b1, b2) && t1.equals(t2)
            },
            _ => false,
        }
    }

    /// Two sequences of terms have equal models exactly when they agree element by element.
    pub proof fn lemma_views_equal(a: Seq<Term>, b: Seq<Term>)
        ensures
            (Term::views(a) == Term::views(b)) == (a.len() == b.len() && forall|i: int|
                0 <= i < a.len() ==> #[trigger] a[i]@ == b[i]@),
    {
        Term::lemma_views(a);
        Term::lemma_views(b);
        if a.len() == b.len() && forall|i: int| 0 <= i < a.len() ==> #[trigger] a[i]@ == b[i]@ {
            assert(Term::views(a) =~= Term::views(b));
        }
        if Term::views(a) == Term::views(b) {
            assert forall|i: int| 0 <= i < a.len() implies #[trigger] a[i]@ == b[i]@ by {
                assert(Term::views(a)[i] == Term::views(b)[i]);
            }
        }
    }

    /// Element-wise structural equality of two sequences of terms.
    pub fn equals_all(a: &Vec<Term>, b: &Vec<Term>) -> (r: bool)
        ensures
            r == (a@.len() == b@.len() && forall|i: int| 0 <= i < a@.len() ==> #[trigger] a@[i]@ == b@[i]@),
            r == (Term::views(a@) == Term::views(b@)),
        decreases a,
    {
        proof {
            Term::lemma_views_equal(a@, b@);
        }
        if a.len() != b.len() {
            return false;
        }
        let mut i: usize = 0;
        while i < a.len()
            invariant
                a@.len() == b@.len(),
                i <= a@.len(),
                forall|j: int| 0 <= j < i ==> #[trigger] a@[j]@ == b@[j]@,
            decreases a@.len() - i,
        {
            assert(decreases_to!(a => a@[i as int]));
            if !a[i].equals(&b[i]) {
                proof {
                    Term::lemma_views_equal(a@, b@);
                }
                return false;
            }
            i = i + 1;
        }
        proof {
            Term::lemma_views_equal(a@, b@);
        }
        true
    }

    /// A copy of this term.
    pub fn duplicate(&self) -> (r: Term)
        ensures
            r@ == self@,
        decreases self,
    {
        broadcast use Term::lemma_views;

        match self {
            Term::Terminal(Terminal::Integer(n)) => Term::Terminal(Terminal::Integer(n.duplicate())),
            Term::Terminal(Terminal::Real(q)) => Term::Terminal(Terminal::Real(q.duplicate())),
            Term::Terminal(Terminal::String(s)) => Term::Terminal(Terminal::String(s.clone())),
            Term::Terminal(Terminal::Var(n, s)) => Term::Terminal(Terminal::Var(n.clone(), s.duplicate())),
            Term::Op(op, args) => {
                let c = Term::duplicate_all(args);
                proof {
                    Term::lemma_views_equal(c@, args@);
                }
                Term::Op(*op, c)
            },
            Term::App(f, args) => {
                let g = f.duplicate();
                let c = Term::duplicate_all(args);
                proof {
                    Term::lemma_views_equal(c@, args@);
                }
                Term::App(Box::new(g), c)
            },
            Term::Quant(q, bs, body) => {
                Term::Quant(*q, duplicate_bindings(bs), Box::new(body.duplicate()))
            },
        }
    }

    /// Copies of a sequence of terms.
    pub fn duplicate_all(a: &Vec<Term>) -> (r: Vec<Term>)
        ensures
            r@.len() == a@.len(),
            forall|i: int| 0 <= i < a@.len() ==> #[trigger] r@[i]@ == a@[i]@,
            Term::views(r@) == Term::views(a@),
        decreases a,
    {
        let mut r: Vec<Term> = Vec::new();
        let mut i: usize = 0;
        while i < a.len()
            invariant
                i <= a@.len(),
                r@.len() == i,
                forall|j: int| 0 <= j < i ==> #[trigger] r@[j]@ == a@[j]@,
            decreases a@.len() - i,
        {
            assert(decreases_to!(a => a@[i as int]));
            r.push(a[i].duplicate());
            i = i + 1;
        }
        proof {
            Term::lemma_views_equal(r@, a@);
        }
        r
    }
}


impl SpecTerm {
    /// `(not t)`.
    pub open spec fn not(t: SpecTerm) -> SpecTerm {
        SpecTerm::Op(Operator::Not, seq![t])
    }

    /// `(= a b)`.
    pub open spec fn equality(a: SpecTerm, b: SpecTerm) -> SpecTerm {
        SpecTerm::Op(Operator::Equals, seq![a, b])
    }

    /// The arguments of an application of `op`.
    pub open spec fn op_args(self, op: Operator) -> Option<Seq<SpecTerm>> {
        match self {
            SpecTerm::Op(o, args) => if o == op {
                Some(args)
            } else {
                None
            },
            _ => None,
        }
    }

    /// The inner term of `(not u)`.
    pub open spec fn negated(self) -> Option<SpecTerm> {
        match self.op_args(Operator::Not) {
            Some(args) => if args.len() == 1 {
                Some(args[0])
            } else {
                None
            },
            None => None,
        }
    }

    /// The two sides of a binary application of `op`.
    pub open spec fn binary(self, op: Operator) -> Option<(SpecTerm, SpecTerm)> {
        match self.op_args(op) {
            Some(args) => if args.len() == 2 {
                Some((args[0], args[1]))
            } else {
                None
            },
            None => None,
        }
    }

    /// The three arguments of an application of `ite`.
    pub open spec fn ite_parts(self) -> Option<(SpecTerm, SpecTerm, SpecTerm)> {
        match self.op_args(Operator::Ite) {
            Some(args) => if args.len() == 3 {
                Some((args[0], args[1], args[2]))
            } else {
                None
            },
            None => None,
        }
    }

    /// The variable named `false`.
    pub open spec fn is_bool_false(self) -> bool {
        self matches SpecTerm::Var(name, _) && name == seq!['f', 'a', 'l', 's', 'e']
    }

    /// The variable named `true`.
    pub open spec fn is_bool_true(self) -> bool {
        self matches SpecTerm::Var(name, _) && name == seq!['t', 'r', 'u', 'e']
    }
}


impl Term {
    /// The arguments of this term when it applies `op`.
    pub fn op_args(&self, op: Operator) -> (r: Option<&Vec<Term>>)
        ensures
            r is None <==> self@.op_args(op) is None,
            r matches Some(a) ==> self@.op_args(op) == Some(Term::views(a@)),
    {
        match self {
            Term::Op(o, args) => if *o == op {
                Some(args)
            } else {
                None
            },
            _ => None,
        }
    }

    /// The inner term `u` when this term is `(not u)`.
    pub fn remove_negation(&self) -> (r: Option<&Term>)
        ensures
            r is None <==> self@.negated() is None,
            r matches Some(u) ==> self@.negated() == Some(u@),
    {
        broadcast use Term::lemma_views;

        match self.op_args(Operator::Not) {
            Some(args) => if args.len() == 1 {
                Some(&args[0])
            } else {
                None
            },
            None => None,
        }
    }

    /// The two arguments when this term applies `op` to exactly two arguments.
    pub fn binary(&self, op: Operator) -> (r: Option<(&Term, &Term)>)
        ensures
            r is None <==> self@.binary(op) is None,
            r matches Some(p) ==> self@.binary(op) == Some((p.0@, p.1@)),
    {
        broadcast use Term::lemma_views;

        match self.op_args(op) {
            Some(args) => if args.len() == 2 {
                Some((&args[0], &args[1]))
            } else {
                None
            },
            None => None,
        }
    }

    /// The condition and branches when this term is an `ite` with three arguments.
    pub fn ite_parts(&self) -> (r: Option<(&Term, &Term, &Term)>)
        ensures
            r is None <==> self@.ite_parts() is None,
            r matches Some(p) ==> self@.ite_parts() == Some((p.0@, p.1@, p.2@)),
    {
        broadcast use Term::lemma_views;

        match self.op_args(Operator::Ite) {
            Some(args) => if args.len() == 3 {
                Some((&args[0], &args[1], &args[2]))
            } else {
                None
            },
            None => None,
        }
    }

    /// Whether this term is the variable `false`.
    pub fn is_bool_false(&self) -> (r: bool)
        ensures
            r == self@.is_bool_false(),
    {
        match self {
            Term::Terminal(Terminal::Var(name, _)) => {
                let expected = "false".to_string();
                proof {
                    reveal_strlit("false");
                    assert(expected@ =~= seq!['f', 'a', 'l', 's', 'e']);
                }
                *name == expected
            },
            _ => false,
        }
    }

    /// Whether this term is the variable `true`.
    pub fn is_bool_true(&self) -> (r: bool)
        ensures
            r == self@.is_bool_true(),
    {
        match self {
            Term::Terminal(Terminal::Var(name, _)) => {
                let expected = "true".to_string();
                proof {
                    reveal_strlit("true");
                    assert(expected@ =~= seq!['t', 'r', 'u', 'e']);
                }
                *name == expected
            },
            _ => false,
        }
    }
}


/// A term is determined by its shape: `(not u)` is the only term whose negated part is `u`.
pub broadcast proof fn lemma_negated_shape(t: SpecTerm)
    ensures
        (#[trigger] t.negated()) is Some ==> t == SpecTerm::not(t.negated()->0),
        SpecTerm::not(t).negated() == Some(t),
{
    if t.negated() is Some {
        assert(t->Op_1 =~= seq![t.negated()->0]);
    }
}

/// `(op a b)` is the only term whose binary parts for `op` are `a` and `b`.
pub broadcast proof fn lemma_binary_shape(t: SpecTerm, op: Operator)
    ensures
        (#[trigger] t.binary(op)) is Some ==> t == SpecTerm::Op(
            op,
            seq![(t.binary(op)->0).0, (t.binary(op)->0).1],
        ),
{
    if t.binary(op) is Some {
        assert(t->Op_1 =~= seq![(t.binary(op)->0).0, (t.binary(op)->0).1]);
    }
}

/// `(ite a b c)` is the only term whose `ite` parts are `a`, `b` and `c`.
pub broadcast proof fn lemma_ite_shape(t: SpecTerm)
    ensures
        (#[trigger] t.ite_parts()) is Some ==> t == SpecTerm::Op(
            Operator::Ite,
            seq![(t.ite_parts()->0).0, (t.ite_parts()->0).1, (t.ite_parts()->0).2],
        ),
{
    if t.ite_parts() is Some {
        assert(t->Op_1 =~= seq![(t.ite_parts()->0).0, (t.ite_parts()->0).1, (t.ite_parts()->0).2]);
    }
}

pub broadcast group group_term_shapes {
    lemma_negated_shape,
    lemma_binary_shape,
    lemma_ite_shape,
}


impl SpecTerm {
    /// The sort of a term: quantified formulas and predicates are `Bool`; `ite` has the sort of
    /// its branches; `+`, `-` and `*` have the sort of their first argument; `/` is `Real`; an
    /// application has the result sort of its function.
    pub open spec fn sort(self) -> SpecSort
        decreases self,
    {
        match self {
            SpecTerm::Integer(_, _) => SpecSort::Int,
            SpecTerm::Real(_, _, _) => SpecSort::Real,
            SpecTerm::String(_) => SpecSort::String,
            SpecTerm::Var(_, s) => s,
            SpecTerm::Op(op, args) => match op {
                Operator::Ite => if args.len() >= 2 {
                    args[1].sort()
                } else {
                    SpecSort::Bool
                },
                Operator::Add | Operator::Sub | Operator::Mult => if args.len() >= 1 {
                    args[0].sort()
                } else {
                    SpecSort::Int
                },
                Operator::Div => SpecSort::Real,
                _ => SpecSort::Bool,
            },
            SpecTerm::App(f, _) => match f.sort() {
                SpecSort::Function(sorts) => if sorts.len() > 0 {
                    sorts.last()
                } else {
                    SpecSort::Bool
                },
                _ => SpecSort::Bool,
            },
            SpecTerm::Quant(_, _, _) => SpecSort::Bool,
        }
    }
}

impl Term {
    /// The sort of this term.
    pub fn sort(&self) -> (r: Sort)
        ensures
            r@ == self@.sort(),
        decreases self,
    {
        broadcast use Term::lemma_views, Sort::lemma_views;

        match self {
            Term::Terminal(Terminal::Integer(_)) => Sort::Int,
            Term::Terminal(Terminal::Real(_)) => Sort::Real,
            Term::Terminal(Terminal::String(_)) => Sort::String,
            Term::Terminal(Terminal::Var(_, s)) => s.duplicate(),
            Term::Op(op, args) => match op {
                Operator::Ite => if args.len() >= 2 {
                    assert(decreases_to!(self => args@[1]));
                    assert(self@ == SpecTerm::Op(*op, Term::views(args@)));
                    assert(Term::views(args@)[1] == args@[1]@);
                    args[1].sort()
                } else {
                    Sort::Bool
                },
                Operator::Add | Operator::Sub | Operator::Mult => if args.len() >= 1 {
                    assert(decreases_to!(self => args@[0]));
                    args[0].sort()
                } else {
                    Sort::Int
                },
                Operator::Div => Sort::Real,
                _ => Sort::Bool,
            },
            Term::App(f, _) => {
                let fs = f.sort();
                match fs {
                    Sort::Function(sorts) => if sorts.len() > 0 {
                        assert(Sort::views(sorts@).last() == sorts@[sorts@.len() - 1]@);
                        sorts[sorts.len() - 1].duplicate()
                    } else {
                        Sort::Bool
                    },
                    _ => Sort::Bool,
                }
            },
            Term::Quant(_, _, _) => Sort::Bool,
        }
    }
}


/// Element-wise structural equality of two slices of terms.
pub fn terms_equal(a: &[Term], b: &[Term]) -> (r: bool)
    ensures
        r == (Term::views(a@) == Term::views(b@)),
{
    if a.len() != b.len() {
        proof {
            Term::lemma_views_equal(a@, b@);
        }
        return false;
    }
    let mut i: usize = 0;
    while i < a.len()
        invariant
            a@.len() == b@.len(),
            i <= a@.len(),
            forall|j: int| 0 <= j < i ==> #[trigger] a@[j]@ == b@[j]@,
        decreases a@.len() - i,
    {
        if !a[i].equals(&b[i]) {
            proof {
                Term::lemma_views_equal(a@, b@);
            }
            return false;
        }
        i = i + 1;
    }
    proof {
        Term::lemma_views_equal(a@, b@);
    }
    true
}


/// Structural equality, except that `(= x y)` may stand for `(= y x)` at any depth.
pub open spec fn eq_modulo_reordering(a: SpecTerm, b: SpecTerm) -> bool
    decreases a, 0nat,
{
    match (a, b) {
        (SpecTerm::Op(o1, x), SpecTerm::Op(o2, y)) => o1 == o2 && (eq_modulo_reordering_all(x, y) || (
        o1 == Operator::Equals && x.len() == 2 && y.len() == 2 && eq_modulo_reordering(x[0], y[1])
            && eq_modulo_reordering(x[1], y[0]))),
        (SpecTerm::App(f, x), SpecTerm::App(g, y)) => eq_modulo_reordering(*f, *g)
            && eq_modulo_reordering_all(x, y),
        (SpecTerm::Quant(q1, b1, t1), SpecTerm::Quant(q2, b2, t2)) => q1 == q2 && b1 == b2
            && eq_modulo_reordering(*t1, *t2),
        _ => a == b,
    }
}

/// Element-wise equality modulo reordering of two sequences of the same length.
pub open spec fn eq_modulo_reordering_all(x: Seq<SpecTerm>, y: Seq<SpecTerm>) -> bool
    decreases x, 1nat,
{
    x.len() == y.len() && (x.len() == 0 || (eq_modulo_reordering_all(
        x.subrange(0, x.len() - 1),
        y.subrange(0, y.len() - 1),
    ) && eq_modulo_reordering(x[x.len() - 1], y[y.len() - 1])))
}

impl Term {
    /// Equality modulo reordering of the sides of equalities.
    pub fn eq_modulo_reordering(&self, other: &Term) -> (r: bool)
        ensures
            r == eq_modulo_reordering(self@, other@),
        decreases self, 0nat, 0nat,
    {
        broadcast use Term::lemma_views;

        match (self, other) {
            (Term::Op(o1, x), Term::Op(o2, y)) => {
                if *o1 != *o2 {
                    return false;
                }
                if Term::eq_modulo_reordering_all(x, y) {
                    return true;
                }
                if *o1 == Operator::Equals && x.len() == 2 && y.len() == 2 {
                    assert(decreases_to!(self => x@[0]));
                    assert(decreases_to!(self => x@[1]));
                    x[0].eq_modulo_reordering(&y[1]) && x[1].eq_modulo_reordering(&y[0])
                } else {
                    false
                }
            },
            (Term::App(f, x), Term::App(g, y)) => {
                f.eq_modulo_reordering(g) && Term::eq_modulo_reordering_all(x, y)
            },
            (Term::Quant(q1, b1, t1), Term::Quant(q2, b2, t2)) => {
                *q1 == *q2 && bindings_equal(b1, b2) && t1.eq_modulo_reordering(t2)
            },
            (Term::Op(_, _), _) | (Term::App(_, _), _) | (Term::Quant(_, _, _), _) => {
                assert(self@ != other@);
                false
            },
            _ => self.equals(other),
        }
    }

    fn eq_modulo_reordering_all(x: &Vec<Term>, y: &Vec<Term>) -> (r: bool)
        ensures
            r == eq_modulo_reordering_all(Term::views(x@), Term::views(y@)),
        decreases x, 1nat, x@.len() + 1,
    {
        if x.len() != y.len() {
            return false;
        }
        let r = Term::eq_modulo_reordering_prefix(x, y, x.len());
        assert(Term::views(x@).subrange(0, x@.len() as int) =~= Term::views(x@));
        assert(Term::views(y@).subrange(0, y@.len() as int) =~= Term::views(y@));
        r
    }

    fn eq_modulo_reordering_prefix(x: &Vec<Term>, y: &Vec<Term>, n: usize) -> (r: bool)
        requires
            n <= x@.len(),
            n <= y@.len(),
        ensures
            r == eq_modulo_reordering_all(
                Term::views(x@).subrange(0, n as int),
                Term::views(y@).subrange(0, n as int),
            ),
        decreases x, 1nat, n,
    {
        broadcast use Term::lemma_views;

        let ghost xs = Term::views(x@).subrange(0, n as int);
        let ghost ys = Term::views(y@).subrange(0, n as int);
        if n == 0 {
            return true;
        }
        assert(xs.subrange(0, n - 1) =~= Term::views(x@).subrange(0, n - 1));
        assert(ys.subrange(0, n - 1) =~= Term::views(y@).subrange(0, n - 1));
        assert(decreases_to!(x => x@[n - 1]));
        Term::eq_modulo_reordering_prefix(x, y, n - 1) && x[n - 1].eq_modulo_reordering(&y[n - 1])
    }
}


/// The number of leading negations of a term and the term under them.
pub open spec fn strip_negations(t: SpecTerm) -> (nat, SpecTerm)
    decreases t,
{
    match t {
        SpecTerm::Op(op, args) => if op == Operator::Not && args.len() == 1 {
            let inner = strip_negations(args[0]);
            (inner.0 + 1, inner.1)
        } else {
            (0, t)
        },
        _ => (0, t),
    }
}

/// The subterms of a term in pre-order: the term itself, then the subterms of its function,
/// arguments or body in order; a shared subterm appears once for each occurrence.
pub open spec fn subterms(t: SpecTerm) -> Seq<SpecTerm>
    decreases t, 0nat,
{
    seq![t] + match t {
        SpecTerm::Op(_, args) => subterms_all(args),
        SpecTerm::App(f, args) => subterms(*f) + subterms_all(args),
        SpecTerm::Quant(_, _, body) => subterms(*body),
        _ => seq![],
    }
}

/// The subterms of a sequence of terms, in order.
pub open spec fn subterms_all(ts: Seq<SpecTerm>) -> Seq<SpecTerm>
    decreases ts, 1nat,
{
    if ts.len() == 0 {
        seq![]
    } else {
        subterms_all(ts.subrange(0, ts.len() - 1)) + subterms(ts[ts.len() - 1])
    }
}

/// The models of a sequence of term references.
pub open spec fn term_ref_views(ts: Seq<&Term>) -> Seq<SpecTerm> {
    Seq::new(ts.len(), |i: int| ts[i]@)
}

impl Term {
    /// The number of leading negations and the term under them.
    pub fn strip_leading_negations(&self) -> (r: (usize, &Term))
        requires
            strip_negations(self@).0 <= usize::MAX,
        ensures
            r.0 == strip_negations(self@).0,
            r.1@ == strip_negations(self@).1,
    {
        let mut current = self;
        let mut count: usize = 0;
        loop
            invariant
                count + strip_negations(current@).0 == strip_negations(self@).0,
                strip_negations(current@).1 == strip_negations(self@).1,
                strip_negations(self@).0 <= usize::MAX,
            ensures
                count == strip_negations(self@).0,
                current@ == strip_negations(self@).1,
            decreases strip_negations(current@).0,
        {
            match current.remove_negation() {
                Some(inner) => {
                    proof {
                        lemma_negated_shape(current@);
                        assert(current@ == SpecTerm::not(inner@));
                        assert(seq![inner@][0] == inner@);
                    }
                    current = inner;
                    count = count + 1;
                },
                None => {
                    proof {
                        match current@ {
                            SpecTerm::Op(op, args) => {
                                if op == Operator::Not && args.len() == 1 {
                                    assert(current@.negated() is Some);
                                }
                            },
                            _ => {},
                        }
                        assert(strip_negations(current@) == (0nat, current@));
                    }
                    break;
                },
            }
        }
        (count, current)
    }

    /// The subterms of this term in pre-order.
    pub fn subterms(&self) -> (r: Vec<&Term>)
        ensures
            term_ref_views(r@) == subterms(self@),
    {
        let mut out: Vec<&Term> = Vec::new();
        collect_subterms(self, &mut out);
        assert(term_ref_views(Seq::<&Term>::empty()) =~= Seq::<SpecTerm>::empty());
        assert(Seq::<SpecTerm>::empty() + subterms(self@) =~= subterms(self@));
        out
    }
}

fn collect_subterms<'a>(t: &'a Term, out: &mut Vec<&'a Term>)
    ensures
        term_ref_views(final(out)@) == term_ref_views(old(out)@) + subterms(t@),
    decreases t, 0nat,
{
    let ghost before = term_ref_views(out@);
    out.push(t);
    assert(term_ref_views(out@) =~= before.push(t@));
    match t {
        Term::Op(_, args) => {
            collect_subterms_all(args, args.len(), out);
            assert(Term::views(args@).subrange(0, args@.len() as int) =~= Term::views(args@));
        },
        Term::App(f, args) => {
            collect_subterms(f, out);
            collect_subterms_all(args, args.len(), out);
            assert(Term::views(args@).subrange(0, args@.len() as int) =~= Term::views(args@));
        },
        Term::Quant(_, _, body) => {
            collect_subterms(body, out);
        },
        _ => {},
    }
    assert(term_ref_views(out@) =~= before + subterms(t@));
}

fn collect_subterms_all<'a>(ts: &'a Vec<Term>, n: usize, out: &mut Vec<&'a Term>)
    requires
        n <= ts@.len(),
    ensures
        term_ref_views(final(out)@) == term_ref_views(old(out)@) + subterms_all(
            Term::views(ts@).subrange(0, n as int),
        ),
    decreases ts, 1nat, n,
{
    broadcast use Term::lemma_views;

    let ghost xs = Term::views(ts@).subrange(0, n as int);
    if n == 0 {
        assert(term_ref_views(out@) + subterms_all(xs) =~= term_ref_views(out@));
        return;
    }
    collect_subterms_all(ts, n - 1, out);
    assert(xs.subrange(0, xs.len() - 1) =~= Term::views(ts@).subrange(0, n - 1));
    assert(decreases_to!(ts => ts@[n - 1]));
    collect_subterms(&ts[n - 1], out);
}

} // verus!
