use alethe_checker::ast::{Operator, Quantifier, Sort, Term, Terminal};
use alethe_checker::checker::{Correctness, ProofChecker, Rule};
use alethe_checker::commands::{Proof, ProofArg, ProofCommand};
use alethe_checker::number::{Numeral, Rational};
use alethe_checker::pool::{apply_substitutions, free_variables, TermPool};
use alethe_checker::rules::quantifier::negative_normal_form;
use alethe_checker::Error;

// A small reader for the problem and proof text used by the tests: S-expressions, declarations,
// terms and commands.

enum Sexp {
    Atom(String),
    List(Vec<Sexp>),
}

fn read_all(text: &str) -> Vec<Sexp> {
    let mut tokens: Vec<String> = Vec::new();
    let mut current = String::new();
    for c in text.chars() {
        if c == '(' || c == ')' || c.is_whitespace() {
            if !current.is_empty() {
                tokens.push(current.clone());
                current.clear();
            }
            if c == '(' || c == ')' {
                tokens.push(c.to_string());
            }
        } else {
            current.push(c);
        }
    }
    if !current.is_empty() {
        tokens.push(current);
    }
    let mut pos = 0;
    let mut out = Vec::new();
    while pos < tokens.len() {
        out.push(read_one(&tokens, &mut pos));
    }
    out
}

fn read_one(tokens: &[String], pos: &mut usize) -> Sexp {
    let tok = tokens[*pos].clone();
    *pos += 1;
    if tok == "(" {
        let mut items = Vec::new();
        while tokens[*pos] != ")" {
            items.push(read_one(tokens, pos));
        }
        *pos += 1;
        Sexp::List(items)
    } else {
        Sexp::Atom(tok)
    }
}

fn atom(e: &Sexp) -> &str {
    match e {
        Sexp::Atom(s) => s,
        Sexp::List(_) => panic!("expected an atom"),
    }
}

fn list(e: &Sexp) -> &[Sexp] {
    match e {
        Sexp::List(items) => items,
        Sexp::Atom(a) => panic!("expected a list, found {}", a),
    }
}

struct Env {
    sorts: Vec<String>,
    decls: Vec<(String, Sort)>,
}

fn sort_of(e: &Sexp, env: &Env) -> Sort {
    match atom(e) {
        "Bool" => Sort::Bool,
        "Int" => Sort::Int,
        "Real" => Sort::Real,
        "String" => Sort::String,
        name => {
            assert!(env.sorts.iter().any(|s| s == name), "unknown sort {}", name);
            Sort::Atom(name.to_string(), Vec::new())
        }
    }
}

fn read_problem(text: &str) -> Env {
    let mut env = Env { sorts: Vec::new(), decls: Vec::new() };
    for e in read_all(text) {
        let items = list(&e);
        match atom(&items[0]) {
            "declare-sort" => env.sorts.push(atom(&items[1]).to_string()),
            "declare-fun" => {
                let name = atom(&items[1]).to_string();
                let args = list(&items[2]);
                let result = sort_of(&items[3], &env);
                let sort = if args.is_empty() {
                    result
                } else {
                    let mut all: Vec<Sort> = args.iter().map(|a| sort_of(a, &env)).collect();
                    all.push(result);
                    Sort::Function(all)
                };
                env.decls.push((name, sort));
            }
            other => panic!("unknown declaration {}", other),
        }
    }
    env
}

fn operator(name: &str) -> Option<Operator> {
    Some(match name {
        "not" => Operator::Not,
        "and" => Operator::And,
        "or" => Operator::Or,
        "=>" => Operator::Implies,
        "=" => Operator::Equals,
        "distinct" => Operator::Distinct,
        "ite" => Operator::Ite,
        "+" => Operator::Add,
        "-" => Operator::Sub,
        "*" => Operator::Mult,
        "/" => Operator::Div,
        "<" => Operator::LessThan,
        "<=" => Operator::LessEq,
        ">" => Operator::GreaterThan,
        ">=" => Operator::GreaterEq,
        _ => return None,
    })
}

fn var(name: &str, sort: Sort) -> Term {
    Term::Terminal(Terminal::Var(name.to_string(), sort))
}

fn integer(n: u64) -> Term {
    Term::Terminal(Terminal::Integer(Numeral::from_u64(n)))
}

fn read_term(e: &Sexp, env: &Env, bound: &Vec<(String, Sort)>) -> Term {
    match e {
        Sexp::Atom(a) => {
            if a.chars().all(|c| c.is_ascii_digit()) {
                return integer(a.parse().unwrap());
            }
            if let Some((whole, frac)) = a.split_once('.') {
                let digits = format!("{}{}", whole, frac);
                let numer = Numeral::from_u64(digits.parse().unwrap());
                let denom = Numeral::from_u64(10u64.pow(frac.len() as u32));
                return Term::Terminal(Terminal::Real(Rational::new(&numer, &denom).unwrap()));
            }
            if a == "true" || a == "false" {
                return var(a, Sort::Bool);
            }
            if let Some((_, s)) = bound.iter().rev().find(|(n, _)| n == a) {
                return var(a, s.duplicate());
            }
            if let Some((_, s)) = env.decls.iter().find(|(n, _)| n == a) {
                return var(a, s.duplicate());
            }
            panic!("unknown symbol {}", a)
        }
        Sexp::List(items) => {
            let head = &items[0];
            if let Sexp::Atom(h) = head {
                if h == "forall" || h == "exists" {
                    let q = if h == "forall" { Quantifier::Forall } else { Quantifier::Exists };
                    let mut bindings = Vec::new();
                    let mut inner = bound.iter().map(|(n, s)| (n.clone(), s.duplicate())).collect::<Vec<_>>();
                    for b in list(&items[1]) {
                        let pair = list(b);
                        let name = atom(&pair[0]).to_string();
                        let sort = sort_of(&pair[1], env);
                        inner.push((name.clone(), sort.duplicate()));
                        bindings.push((name, sort));
                    }
                    let body = read_term(&items[2], env, &inner);
                    return Term::Quant(q, bindings, Box::new(body));
                }
                if let Some(op) = operator(h) {
                    let args = items[1..].iter().map(|a| read_term(a, env, bound)).collect();
                    return Term::Op(op, args);
                }
            }
            let f = read_term(head, env, bound);
            let args = items[1..].iter().map(|a| read_term(a, env, bound)).collect();
            Term::App(Box::new(f), args)
        }
    }
}

fn read_proof(definitions: &str, proof: &str) -> Proof {
    let env = read_problem(definitions);
    let none = Vec::new();
    let mut ids: Vec<String> = Vec::new();
    let mut commands = Vec::new();
    for e in read_all(proof) {
        let items = list(&e);
        ids.push(atom(&items[1]).to_string());
        match atom(&items[0]) {
            "assume" => commands.push(ProofCommand::Assume(read_term(&items[2], &env, &none))),
            "step" => {
                let clause_items = list(&items[2]);
                assert_eq!(atom(&clause_items[0]), "cl");
                let clause = clause_items[1..].iter().map(|t| read_term(t, &env, &none)).collect();
                let mut rule = String::new();
                let mut premises = Vec::new();
                let mut args = Vec::new();
                let mut k = 3;
                while k < items.len() {
                    match atom(&items[k]) {
                        ":rule" => rule = atom(&items[k + 1]).to_string(),
                        ":premises" => {
                            for p in list(&items[k + 1]) {
                                premises.push(ids.iter().position(|i| i == atom(p)).unwrap());
                            }
                        }
                        ":args" => {
                            for a in list(&items[k + 1]) {
                                let arg = match a {
                                    Sexp::List(parts) if matches!(&parts[0], Sexp::Atom(s) if s == ":=") => {
                                        ProofArg::Assign(atom(&parts[1]).to_string(), read_term(&parts[2], &env, &none))
                                    }
                                    _ => ProofArg::Term(read_term(a, &env, &none)),
                                };
                                args.push(arg);
                            }
                        }
                        other => panic!("unknown keyword {}", other),
                    }
                    k += 2;
                }
                commands.push(ProofCommand::Step { clause, rule, premises, args });
            }
            other => panic!("unknown command {}", other),
        }
    }
    Proof(commands)
}

fn check_text(definitions: &str, proof: &str) -> bool {
    let checker = ProofChecker::new(read_proof(definitions, proof), true);
    checker.check() == Ok(Correctness::Valid)
}

fn run_tests(definitions: &str, cases: &[(&str, bool)]) {
    for (proof, expected) in cases {
        assert_eq!(*expected, check_text(definitions, proof), "{}", proof);
    }
}

fn read_single_term(definitions: &str, text: &str) -> Term {
    let env = read_problem(definitions);
    read_term(&read_all(text)[0], &env, &Vec::new())
}

#[test]
fn test_match_op() {
    let term = read_single_term("", "(= (= (not false) (= true false)) (not true))");
    let (left, d) = term.binary(Operator::Equals).unwrap();
    let (not_a, eq_bc) = left.binary(Operator::Equals).unwrap();
    let a = not_a.remove_negation().unwrap();
    let (b, c) = eq_bc.binary(Operator::Equals).unwrap();
    let d = d.remove_negation().unwrap();
    assert!(a.equals(&var("false", Sort::Bool)));
    assert!(b.equals(&var("true", Sort::Bool)));
    assert!(c.equals(&var("false", Sort::Bool)));
    assert!(d.equals(&var("true", Sort::Bool)));

    let term = read_single_term("", "(ite (not true) (- 2 2) (* 1 5))");
    let (cond, b, c) = term.ite_parts().unwrap();
    let a = cond.remove_negation().unwrap();
    assert!(a.equals(&var("true", Sort::Bool)));
    assert!(b.equals(&Term::Op(Operator::Sub, vec![integer(2), integer(2)])));
    assert!(c.equals(&Term::Op(Operator::Mult, vec![integer(1), integer(5)])));
}

#[test]
fn distinct_elim() {
    let definitions = "
        (declare-sort T 0)
        (declare-fun a () T)
        (declare-fun b () T)
        (declare-fun c () T)
        (declare-fun p () Bool)
        (declare-fun q () Bool)
        (declare-fun r () Bool)
    ";
    run_tests(
        definitions,
        &[
            // Simple working examples
            ("(step t1 (cl (= (distinct a b) (not (= a b)))) :rule distinct_elim)", true),
            (
                "(step t1 (cl (= (distinct a b c) (and
                    (not (= a b))
                    (not (= a c))
                    (not (= b c))
                ))) :rule distinct_elim)",
                true,
            ),
            // Inequality terms in different orders
            ("(step t1 (cl (= (distinct a b) (not (= b a)))) :rule distinct_elim)", true),
            (
                "(step t1 (cl (= (distinct a b c) (and
                    (not (= b a))
                    (not (= a c))
                    (not (= c b))
                ))) :rule distinct_elim)",
                true,
            ),
            // Conjunction terms in wrong order
            (
                "(step t1 (cl (= (distinct a b c) (and
                    (not (= b c))
                    (not (= a b))
                    (not (= a c))
                ))) :rule distinct_elim)",
                false,
            ),
            // "distinct" on more than two booleans should be "false"
            ("(step t1 (cl (= (distinct p q r) false)) :rule distinct_elim)", true),
            (
                "(step t1 (cl (= (distinct p q r) (and
                    (not (= p q))
                    (not (= p r))
                    (not (= q r))
                ))) :rule distinct_elim)",
                false,
            ),
        ],
    );
}

const FOUR_BOOLS: &str = "
    (declare-fun p () Bool)
    (declare-fun q () Bool)
    (declare-fun r () Bool)
    (declare-fun s () Bool)
";

#[test]
fn and() {
    run_tests(
        FOUR_BOOLS,
        &[
            // Simple working examples
            ("(assume h1 (and p q)) (step t2 (cl q) :rule and :premises (h1))", true),
            ("(assume h1 (and p q r s)) (step t2 (cl p) :rule and :premises (h1))", true),
            ("(assume h1 (and p q r s)) (step t2 (cl s) :rule and :premises (h1))", true),
            // Number of premises != 1
            ("(step t1 (cl p) :rule and)", false),
            (
                "(assume h1 (and p q)) (assume h2 (and r s))
                (step t2 (cl r) :rule and :premises (h1 h2))",
                false,
            ),
            // Premise clause has more than one term
            (
                "(step t1 (cl (and p q) (and r s)) :rule trust_me)
                (step t2 (cl p) :rule and :premises (t1))",
                false,
            ),
            // Conclusion clause does not have exactly one term
            ("(assume h1 (and p q r s)) (step t2 (cl q s) :rule and :premises (h1))", false),
            ("(assume h1 (and p q)) (step t2 (cl) :rule and :premises (h1))", false),
            // Premise is not an "and" operation
            ("(assume h1 (or p q r s)) (step t2 (cl r) :rule and :premises (h1))", false),
            // Conclusion term is not in premise
            ("(assume h1 (and p q r)) (step t2 (cl s) :rule and :premises (h1))", false),
        ],
    );
}

#[test]
fn or() {
    run_tests(
        FOUR_BOOLS,
        &[
            // Simple working examples
            ("(assume h1 (or p q)) (step t2 (cl p q) :rule or :premises (h1))", true),
            ("(assume h1 (or p q r s)) (step t2 (cl p q r s) :rule or :premises (h1))", true),
            // Number of premises != 1
            ("(step t1 (cl p q r) :rule or)", false),
            (
                "(assume h1 (or p q)) (assume h2 (or q r))
                (step t3 (cl p q r) :rule or :premises (h1 h2))",
                false,
            ),
            // Premise clause has more than one term
            (
                "(assume h1 (or p (or q r)))
                (step t2 (cl p (or q r)) :rule or :premises (h1))
                (step t3 (cl p q) :rule or :premises (t2))",
                false,
            ),
            // Premise is not an "or" operation
            ("(assume h1 (and p q)) (step t2 (cl p q) :rule or :premises (h1))", false),
            // Premise and clause contents are different
            ("(assume h1 (or p q)) (step t2 (cl r s) :rule or :premises (h1))", false),
            ("(assume h1 (or p q r)) (step t2 (cl p q) :rule or :premises (h1))", false),
            ("(assume h1 (or q p)) (step t2 (cl p q) :rule or :premises (h1))", false),
        ],
    );
}

#[test]
fn implies() {
    let definitions = "
        (declare-fun a () Bool)
        (declare-fun b () Bool)
    ";
    run_tests(
        definitions,
        &[
            // Simple working examples
            ("(assume h1 (=> a b)) (step t2 (cl (not a) b) :rule implies :premises (h1))", true),
            (
                "(assume h1 (=> (not a) b)) (step t2 (cl (not (not a)) b) :rule implies :premises (h1))",
                true,
            ),
            // Premise term is not an "implies" term
            ("(assume h1 (= a b)) (step t2 (cl (not a) b) :rule implies :premises (h1))", false),
            // Conclusion clause is of the wrong form
            ("(assume h1 (=> a b)) (step t2 (cl b (not a)) :rule implies :premises (h1))", false),
            ("(assume h1 (=> a b)) (step t2 (cl a (not b)) :rule implies :premises (h1))", false),
            ("(assume h1 (=> (not a) b)) (step t2 (cl a b) :rule implies :premises (h1))", false),
        ],
    );
}

const NARY_DEFINITIONS: &str = "
    (declare-fun p () Bool)
    (declare-fun q () Bool)
    (declare-fun r () Bool)
    (declare-fun s () Bool)
    (declare-fun a () Int)
    (declare-fun b () Int)
    (declare-fun c () Int)
    (declare-fun d () Int)
";

#[test]
fn nary_elim() {
    run_tests(
        NARY_DEFINITIONS,
        &[
            // Chainable operators
            ("(step t1 (cl (= (= a b c d) (and (= a b) (= b c) (= c d)))) :rule nary_elim)", true),
            ("(step t1 (cl (= (= a b) (and (= a b)))) :rule nary_elim)", true),
            ("(step t1 (cl (= (= a b c) (and (= b c) (= a b)))) :rule nary_elim)", false),
            ("(step t1 (cl (= (= a b c d) (and (= a b) (= c d)))) :rule nary_elim)", false),
            // Left associative operators
            ("(step t1 (cl (= (+ a b c d) (+ (+ (+ a b) c) d))) :rule nary_elim)", true),
            ("(step t1 (cl (= (* a b) (* a b))) :rule nary_elim)", true),
            ("(step t1 (cl (= (- a b c d) (- a (- b (- c d))))) :rule nary_elim)", false),
            ("(step t1 (cl (= (+ a b c d) (+ (+ (+ d c) b) a))) :rule nary_elim)", false),
            // Right associative operators
            ("(step t1 (cl (= (=> p q r s) (=> p (=> q (=> r s))))) :rule nary_elim)", true),
            ("(step t1 (cl (= (=> p q) (=> p q))) :rule nary_elim)", true),
            ("(step t1 (cl (= (=> p q r s) (=> (=> (=> p q) r) s))) :rule nary_elim)", false),
            // Clause term is not of the correct form
            ("(step t1 (cl (= (or p q r s) (or (or (or p q) r) s))) :rule nary_elim)", false),
            ("(step t1 (cl (= (- a) (- a))) :rule nary_elim)", false),
            ("(step t1 (cl (= (=> p (=> q (=> r s))) (=> p q r s))) :rule nary_elim)", false),
        ],
    );
}

const QUANTIFIER_DEFINITIONS: &str = "
    (declare-fun p () Bool)
    (declare-fun q () Bool)
    (declare-fun a () Real)
    (declare-fun b () Real)
    (declare-fun x () Real)
";

#[test]
fn forall_inst() {
    run_tests(
        QUANTIFIER_DEFINITIONS,
        &[
            // Simple working examples
            ("(step t1 (cl (or (not (forall ((p Bool)) p)) q)) :rule forall_inst :args ((:= p q)))", true),
            (
                "(step t1 (cl (or (not (forall ((x Real) (y Real)) (= x y))) (= a b)))
                    :rule forall_inst :args ((:= x a) (:= y b)))",
                true,
            ),
            (
                "(step t1 (cl (or (not (forall ((x Real)) (= x a))) (= a a)))
                    :rule forall_inst :args ((:= x a)))",
                true,
            ),
            (
                "(step t1 (cl (or (not (forall ((p Bool)) p)) (ite q (= a b) (and (= a 0.0) true))))
                    :rule forall_inst :args ((:= p (ite q (= a b) (and (= a 0.0) true)))))",
                true,
            ),
            // Equalities may be flipped
            (
                "(step t1 (cl (or (not (forall ((x Real) (y Real)) (and (= x y) (= 1 0))))
                    (and (= b a) (= 1 0)))) :rule forall_inst :args ((:= x a) (:= y b)))",
                true,
            ),
            // Argument is not in quantifier bindings
            (
                "(step t1 (cl (or (not (forall ((x Real)) (= x a))) (= b 0.0)))
                    :rule forall_inst :args ((:= x b) (:= a 0.0)))",
                false,
            ),
            // Binding has no associated substitution
            (
                "(step t1 (cl (or (not (forall ((x Real) (y Real)) (= x x))) (= a a)))
                    :rule forall_inst :args ((:= x a)))",
                false,
            ),
            // Substitution was not applied
            (
                "(step t1 (cl (or (not (forall ((x Real) (y Real)) (= x y))) (= x b)))
                    :rule forall_inst :args ((:= x a) (:= y b)))",
                false,
            ),
            // Applied substitution was not passed as argument
            (
                "(step t1 (cl (or (not (forall ((x Real) (y Real)) (= x y))) (= a b)))
                    :rule forall_inst :args ((:= x a)))",
                false,
            ),
            // Wrong type of rule argument
            (
                "(step t1 (cl (or (not (forall ((x Real) (y Real)) (= x y))) (= a b)))
                    :rule forall_inst :args ((:= x a) b))",
                false,
            ),
        ],
    );
}

#[test]
fn qnt_join() {
    run_tests(
        QUANTIFIER_DEFINITIONS,
        &[
            // Simple working examples
            (
                "(step t1 (cl (=
                    (forall ((x Real)) (forall ((y Real)) (= x y)))
                    (forall ((x Real) (y Real)) (= x y))
                )) :rule qnt_join)",
                true,
            ),
            (
                "(step t1 (cl (=
                    (forall ((x Real) (y Real)) (forall ((z Real) (w Real)) (= (+ x y) (+ z w))))
                    (forall ((x Real) (y Real) (z Real) (w Real)) (= (+ x y) (+ z w)))
                )) :rule qnt_join)",
                true,
            ),
            // Bindings in wrong order
            (
                "(step t1 (cl (=
                    (forall ((x Real)) (forall ((y Real)) (= x y)))
                    (forall ((y Real) (x Real)) (= x y))
                )) :rule qnt_join)",
                false,
            ),
            (
                "(step t1 (cl (=
                    (forall ((x Real) (y Real)) (forall ((z Real) (w Real)) (= (+ x y) (+ z w))))
                    (forall ((z Real) (y Real) (w Real) (x Real)) (= (+ x y) (+ z w)))
                )) :rule qnt_join)",
                false,
            ),
            // Removing duplicates
            (
                "(step t1 (cl (=
                    (forall ((p Bool)) (forall ((p Bool)) p))
                    (forall ((p Bool)) p)
                )) :rule qnt_join)",
                true,
            ),
            (
                "(step t1 (cl (=
                    (forall ((x Real) (y Real)) (forall ((y Real) (z Real)) (distinct x y z)))
                    (forall ((x Real) (y Real) (z Real)) (distinct x y z))
                )) :rule qnt_join)",
                true,
            ),
            (
                "(step t1 (cl (=
                    (forall ((x Real) (y Real)) (forall ((x Real) (y Real)) (= x y)))
                    (forall ((x Real) (y Real)) (= x y))
                )) :rule qnt_join)",
                true,
            ),
            (
                "(step t1 (cl (=
                    (forall ((x Real) (y Real)) (forall ((z Real) (x Real)) (distinct x y z)))
                    (forall ((x Real) (y Real) (z Real) (x Real)) (distinct x y z))
                )) :rule qnt_join)",
                false,
            ),
        ],
    );
}

#[test]
fn qnt_rm_unused() {
    run_tests(
        QUANTIFIER_DEFINITIONS,
        &[
            // Simple working examples
            (
                "(step t1 (cl (=
                    (forall ((x Real) (y Real) (z Real)) (= x z))
                    (forall ((x Real) (z Real)) (= x z))
                )) :rule qnt_rm_unused)",
                true,
            ),
            (
                "(step t1 (cl (=
                    (forall ((x Real) (y Real) (z Real) (w Real)) (= y y))
                    (forall ((y Real)) (= y y))
                )) :rule qnt_rm_unused)",
                true,
            ),
            // Bindings in wrong order
            (
                "(step t1 (cl (=
                    (forall ((x Real) (y Real) (z Real)) (= x z))
                    (forall ((z Real) (x Real)) (= x z))
                )) :rule qnt_rm_unused)",
                false,
            ),
            // Not all unused bindings were removed
            (
                "(step t1 (cl (=
                    (forall ((x Real) (y Real) (z Real) (w Real)) (= y y))
                    (forall ((y Real) (w Real)) (= y y))
                )) :rule qnt_rm_unused)",
                false,
            ),
        ],
    );
}

#[test]
fn test_or_rule() {
    run_tests(
        FOUR_BOOLS,
        &[
            // Simple working examples
            ("(assume h1 (or p q)) (step t2 (cl p q) :rule or :premises (h1))", true),
            ("(assume h1 (or p q r s)) (step t2 (cl p q r s) :rule or :premises (h1))", true),
            // Number of premises != 1
            (
                "(assume h1 (or p q)) (assume h2 (or q r))
                (step t2 (cl p q r) :rule or :premises (h1 h2))",
                false,
            ),
            // Premise clause has more than one term
            (
                "(assume h1 (or p (or q r)))
                (step t1 (cl p (or q r)) :rule or :premises (h1))
                (step t2 (cl p q) :rule or :premises (t1))",
                false,
            ),
            // Premise is not an "or" operation
            ("(assume h1 (and p q)) (step t2 (cl p q) :rule or :premises (h1))", false),
            // Premise and clause contents are different
            ("(assume h1 (or p q)) (step t2 (cl r s) :rule or :premises (h1))", false),
            ("(assume h1 (or p q r)) (step t2 (cl p q) :rule or :premises (h1))", false),
            ("(assume h1 (or q p)) (step t2 (cl p q) :rule or :premises (h1))", false),
        ],
    );
}

#[test]
fn test_eq_congruent_rule() {
    let definitions = "
        (declare-fun a () Int)
        (declare-fun b () Int)
        (declare-fun c () Int)
        (declare-fun x () Int)
        (declare-fun y () Int)
        (declare-fun z () Int)
        (declare-fun f (Int Int) Int)
        (declare-fun g (Int Int) Int)
        (declare-fun f-1 (Int) Int)
        (declare-fun f-3 (Int Int Int) Int)
    ";
    run_tests(
        definitions,
        &[
            // Simple working examples
            ("(step t1 (cl (not (= a b)) (= (f-1 a) (f-1 b))) :rule eq_congruent)", true),
            (
                "(step t1 (cl (not (= a x)) (not (= b y)) (not (= c z))
                        (= (f-3 a b c) (f-3 x y z))) :rule eq_congruent)",
                true,
            ),
            // Clause term is not an inequality
            ("(step t1 (cl (not (= a x)) (= b y) (= (f a b) (f x y))) :rule eq_congruent)", false),
            // Final term is not an equality of applications
            ("(step t1 (cl (not (= a x)) (not (= b y)) (= (+ a b) (f x y))) :rule eq_congruent)", false),
            // Functions are not the same
            ("(step t1 (cl (not (= a x)) (not (= b y)) (= (f a b) (g x y))) :rule eq_congruent)", false),
            // Number of function arguments is not the same as the number of inequalities
            (
                "(step t1 (cl (not (= a x)) (not (= b y)) (= (f-3 a b c) (f-3 x y z)))
                    :rule eq_congruent)",
                false,
            ),
            // Each pair of arguments may match its inequality in either order
            ("(step t1 (cl (not (= a x)) (not (= b y)) (= (f x y) (f a b))) :rule eq_congruent)", true),
            // Terms don't match
            ("(step t1 (cl (not (= a x)) (not (= b y)) (= (f b a) (f x y))) :rule eq_congruent)", false),
            ("(step t1 (cl (not (= a x)) (not (= b y)) (= (f a b) (f c z))) :rule eq_congruent)", false),
        ],
    );
}

const THREE_BOOLS: &str = "
    (declare-fun p () Bool)
    (declare-fun q () Bool)
    (declare-fun r () Bool)
";

#[test]
fn test_resolution_rule() {
    run_tests(
        THREE_BOOLS,
        &[
            // Simple working examples
            (
                "(assume h1 (not p))
                (assume h2 (or p q))
                (step t3 (cl p q) :rule or :premises (h2))
                (step t5 (cl q) :rule resolution :premises (h1 t3))",
                true,
            ),
            (
                "(assume h1 (not p))
                (assume h2 (not q))
                (assume h3 (not r))
                (assume h4 (or p q r))
                (step t5 (cl p q r) :rule or :premises (h4))
                (step t6 (cl) :rule resolution :premises (h1 h2 h3 t5))",
                true,
            ),
            (
                "(assume h1 (not p))
                (assume h2 q)
                (assume h3 (or p (not q)))
                (step t4 (cl p (not q)) :rule or :premises (h3))
                (step t5 (cl) :rule resolution :premises (h1 h2 t4))",
                true,
            ),
            // Missing term in final clause
            (
                "(assume h1 (not p))
                (assume h2 (or p q r))
                (step t3 (cl p q r) :rule or :premises (h2))
                (step t4 (cl q) :rule resolution :premises (h1 t3))",
                false,
            ),
            // Extra term in final clause
            (
                "(assume h1 (not p))
                (assume h2 (or p q r))
                (step t3 (cl p q r) :rule or :premises (h2))
                (step t4 (cl p q r) :rule resolution :premises (h1 t3))",
                false,
            ),
            // Term appears in final clause with wrong polarity
            (
                "(assume h1 (not p))
                (assume h2 (or p q r))
                (step t3 (cl p q r) :rule or :premises (h2))
                (step t4 (cl (not q) r) :rule resolution :premises (h1 t3))",
                false,
            ),
            // Duplicate term in final clause
            (
                "(assume h1 (not p))
                (assume h2 (or p q r))
                (step t3 (cl p q r) :rule or :premises (h2))
                (step t4 (cl q q r) :rule resolution :premises (h1 t3))",
                false,
            ),
        ],
    );
}

#[test]
fn scenario_or_unpack() {
    let definitions = "(declare-fun p () Bool) (declare-fun q () Bool)";
    assert!(check_text(definitions, "(assume h1 (or p q)) (step t1 (cl p q) :rule or :premises (h1))"));
}

#[test]
fn scenario_resolution_empty_clause() {
    let proof = "(assume h1 (not p)) (assume h2 (not q)) (assume h3 (not r)) (assume h4 (or p q r))
        (step t5 (cl p q r) :rule or :premises (h4))
        (step t6 (cl) :rule resolution :premises (h1 h2 h3 t5))";
    assert!(check_text(THREE_BOOLS, proof));
}

const THREE_CONSTANTS: &str = "
    (declare-sort U 0)
    (declare-fun a () U)
    (declare-fun b () U)
    (declare-fun c () U)
    (declare-fun d () U)
";

#[test]
fn scenario_eq_transitive_flipped_premise() {
    assert!(check_text(
        THREE_CONSTANTS,
        "(step t1 (cl (not (= a b)) (not (= c b)) (= a c)) :rule eq_transitive)"
    ));
}

#[test]
fn eq_transitive_cases() {
    run_tests(
        THREE_CONSTANTS,
        &[
            ("(step t1 (cl (not (= a b)) (not (= b c)) (not (= c d)) (= a d)) :rule eq_transitive)", true),
            ("(step t1 (cl (not (= a b)) (not (= b c)) (= a d)) :rule eq_transitive)", false),
            // A chain exists even though the first premise that touches `a` leads nowhere.
            ("(step t1 (cl (not (= a b)) (not (= a c)) (not (= c d)) (= a d)) :rule eq_transitive)", true),
            // Equal sides need no chain.
            ("(step t1 (cl (not (= a b)) (not (= b c)) (= d d)) :rule eq_transitive)", true),
            // Fewer than three literals.
            ("(step t1 (cl (not (= a b)) (= a b)) :rule eq_transitive)", false),
            // A literal that is not an inequality.
            ("(step t1 (cl (= a b) (not (= b c)) (= a c)) :rule eq_transitive)", false),
        ],
    );
}

#[test]
fn scenario_distinct_elim_three_booleans() {
    assert!(check_text(THREE_BOOLS, "(step t1 (cl (= (distinct p q r) false)) :rule distinct_elim)"));
    assert!(!check_text(
        THREE_BOOLS,
        "(step t1 (cl (= (distinct p q r) (and (not (= p q)) (not (= p r)) (not (= q r))))) :rule distinct_elim)"
    ));
}

#[test]
fn scenario_nary_elim_chainable_equality() {
    assert!(check_text(
        NARY_DEFINITIONS,
        "(step t1 (cl (= (= a b c d) (and (= a b) (= b c) (= c d)))) :rule nary_elim)"
    ));
    assert!(!check_text(
        NARY_DEFINITIONS,
        "(step t1 (cl (= (= a b c d) (and (= b c) (= a b) (= c d)))) :rule nary_elim)"
    ));
}

#[test]
fn scenario_forall_inst_equality_flip() {
    assert!(check_text(
        QUANTIFIER_DEFINITIONS,
        "(step t1 (cl (or (not (forall ((x Real) (y Real)) (and (= x y) (= 1 0)))) (and (= b a) (= 1 0))))
            :rule forall_inst :args ((:= x a) (:= y b)))"
    ));
}

#[test]
fn forall_inst_swapped_sides_everywhere() {
    // The same step with every equality turned around still passes.
    assert!(check_text(
        QUANTIFIER_DEFINITIONS,
        "(step t1 (cl (or (not (forall ((x Real) (y Real)) (and (= y x) (= 0 1)))) (and (= a b) (= 0 1))))
            :rule forall_inst :args ((:= x a) (:= y b)))"
    ));
    // A bound variable shadows the key of the same name.
    assert!(check_text(
        QUANTIFIER_DEFINITIONS,
        "(step t1 (cl (or (not (forall ((x Real)) (and (= x a) (forall ((x Real)) (= x x)))))
            (and (= b a) (forall ((x Real)) (= x x))))) :rule forall_inst :args ((:= x b)))"
    ));
    // The value must have the sort of the binding.
    assert!(!check_text(
        QUANTIFIER_DEFINITIONS,
        "(step t1 (cl (or (not (forall ((x Real)) (= x x))) (= p p))) :rule forall_inst :args ((:= x p)))"
    ));
}

#[test]
fn eq_reflexive_cases() {
    run_tests(
        THREE_CONSTANTS,
        &[
            ("(step t1 (cl (= a a)) :rule eq_reflexive)", true),
            ("(step t1 (cl (= a b)) :rule eq_reflexive)", false),
            ("(step t1 (cl (= a a) (= b b)) :rule eq_reflexive)", false),
        ],
    );
}

#[test]
fn not_not_and_equiv_cases() {
    run_tests(
        THREE_BOOLS,
        &[
            ("(step t1 (cl (not (not (not p))) p) :rule not_not)", true),
            ("(step t1 (cl (not (not (not p))) q) :rule not_not)", false),
            ("(step t1 (cl (not (not p)) p) :rule not_not)", false),
            ("(step t1 (cl (not (= p q)) p (not q)) :rule equiv_pos1)", true),
            ("(step t1 (cl (not (= p q)) (not p) q) :rule equiv_pos1)", false),
            ("(step t1 (cl (not (= p q)) (not p) q) :rule equiv_pos2)", true),
            ("(step t1 (cl (not (= p q)) p (not q)) :rule equiv_pos2)", false),
        ],
    );
}

#[test]
fn ite_cases() {
    run_tests(
        THREE_BOOLS,
        &[
            ("(assume h1 (ite p q r)) (step t2 (cl p r) :rule ite1 :premises (h1))", true),
            ("(assume h1 (ite p q r)) (step t2 (cl p q) :rule ite1 :premises (h1))", false),
            ("(assume h1 (ite p q r)) (step t2 (cl (not p) q) :rule ite2 :premises (h1))", true),
            ("(assume h1 (ite p q r)) (step t2 (cl p q) :rule ite2 :premises (h1))", false),
        ],
    );
}

#[test]
fn ite_intro_cases() {
    let definitions = "
        (declare-fun p () Bool)
        (declare-fun a () Int)
        (declare-fun b () Int)
        (declare-fun c () Int)
    ";
    run_tests(
        definitions,
        &[
            (
                "(step t1 (cl (= (= c (ite p a b))
                    (and (= c (ite p a b)) (ite p (= (ite p a b) a) (= (ite p a b) b)))))
                    :rule ite_intro)",
                true,
            ),
            (
                "(step t1 (cl (= (= c (ite p a b))
                    (and (= c (ite p a b)) (ite p (= a (ite p a b)) (= b (ite p a b))))))
                    :rule ite_intro)",
                false,
            ),
            ("(step t1 (cl (= (= c a) (and (= c a)))) :rule ite_intro)", true),
            ("(step t1 (cl (= (= c (ite p a b)) (and (= c (ite p a b))))) :rule ite_intro)", false),
        ],
    );
}

#[test]
fn contraction_cases() {
    run_tests(
        THREE_BOOLS,
        &[
            (
                "(assume h1 (or p q p r q)) (step t2 (cl p q p r q) :rule or :premises (h1))
                (step t3 (cl p q r) :rule contraction :premises (t2))",
                true,
            ),
            (
                "(assume h1 (or p q p r q)) (step t2 (cl p q p r q) :rule or :premises (h1))
                (step t3 (cl q p r) :rule contraction :premises (t2))",
                false,
            ),
            (
                "(assume h1 (or p q p)) (step t2 (cl p q p) :rule or :premises (h1))
                (step t3 (cl p q p) :rule contraction :premises (t2))",
                false,
            ),
            // The premise must be a step.
            ("(assume h1 p) (step t2 (cl p) :rule contraction :premises (h1))", false),
        ],
    );
}

#[test]
fn resolution_premise_order() {
    let forward = "(assume h1 (not p)) (assume h2 (or p q)) (step t3 (cl p q) :rule or :premises (h2))
        (step t4 (cl q) :rule resolution :premises (h1 t3))";
    let backward = "(assume h1 (not p)) (assume h2 (or p q)) (step t3 (cl p q) :rule or :premises (h2))
        (step t4 (cl q) :rule resolution :premises (t3 h1))";
    assert!(check_text(THREE_BOOLS, forward));
    assert!(check_text(THREE_BOOLS, backward));
    // Doubly negated literals cancel one negation.
    assert!(check_text(
        THREE_BOOLS,
        "(assume h1 (not (not p))) (assume h2 (not p)) (step t3 (cl) :rule resolution :premises (h1 h2))"
    ));
}

#[test]
fn unknown_rule_is_an_error_when_strict() {
    let proof = read_proof(THREE_BOOLS, "(assume h1 p) (step t2 (cl p) :rule trust_me :premises (h1))");
    let strict = ProofChecker::new(proof, false);
    assert_eq!(strict.check(), Err(Error::UnknownRule { step: 1, rule: "trust_me".to_string() }));
    let proof = read_proof(THREE_BOOLS, "(assume h1 p) (step t2 (cl p) :rule trust_me :premises (h1))");
    assert_eq!(ProofChecker::new(proof, true).check(), Ok(Correctness::Valid));
}

#[test]
fn later_premise_is_an_error() {
    let premise = ProofCommand::Assume(var("p", Sort::Bool));
    let step = ProofCommand::Step {
        clause: vec![var("p", Sort::Bool)],
        rule: "and".to_string(),
        premises: vec![1],
        args: Vec::new(),
    };
    let checker = ProofChecker::new(Proof(vec![premise, step]), false);
    assert_eq!(checker.check(), Err(Error::PremiseOutOfRange { step: 1, premise: 1 }));
}

#[test]
fn invalid_step_is_reported() {
    let proof = read_proof(THREE_BOOLS, "(assume h1 (or p q)) (step t2 (cl q p) :rule or :premises (h1))");
    assert_eq!(ProofChecker::new(proof, false).check(), Ok(Correctness::Invalid { step: 1 }));
}

#[test]
fn rule_registry() {
    assert_eq!(ProofChecker::get_rule("resolution"), Some(Rule::Resolution));
    assert_eq!(ProofChecker::get_rule("th_resolution"), Some(Rule::Resolution));
    assert_eq!(ProofChecker::get_rule("eq_congruent_pred"), Some(Rule::EqCongruent));
    assert_eq!(ProofChecker::get_rule("qnt_rm_unused"), Some(Rule::QntRmUnused));
    assert_eq!(ProofChecker::get_rule("trust_me"), None);
}

#[test]
fn interning_shares_handles() {
    let mut pool = TermPool::new();
    let t1 = read_single_term(THREE_BOOLS, "(and p (not q))");
    let t2 = read_single_term(THREE_BOOLS, "(and p (not q))");
    let t3 = read_single_term(THREE_BOOLS, "(and (not q) p)");
    let h1 = pool.intern(t1);
    let h2 = pool.intern(t2);
    let h3 = pool.intern(t3);
    assert_eq!(h1, h2);
    assert_ne!(h1, h3);
    assert_eq!(pool.len(), 2);
    assert!(pool.get(h3).equals(&read_single_term(THREE_BOOLS, "(and (not q) p)")));
}

#[test]
fn substitution_keeps_sort_and_respects_binders() {
    let definitions = "(declare-fun a () Int) (declare-fun b () Int) (declare-fun x () Int)";
    let term = read_single_term(definitions, "(+ x (ite (= x a) x b))");
    let subs = vec![(var("x", Sort::Int), var("a", Sort::Int))];
    let result = apply_substitutions(&term, &subs);
    assert!(result.equals(&read_single_term(definitions, "(+ a (ite (= a a) a b))")));
    assert!(result.sort().equals(&term.sort()));
    let quantified = read_single_term(definitions, "(and (= x b) (forall ((x Int)) (= x x)))");
    let result = apply_substitutions(&quantified, &subs);
    assert!(result.equals(&read_single_term(definitions, "(and (= a b) (forall ((x Int)) (= x x)))")));
}

#[test]
fn sorts_of_terms() {
    let definitions = "(declare-fun a () Int) (declare-fun f (Int Int) Real) (declare-fun p () Bool)";
    assert!(read_single_term(definitions, "(+ a 1)").sort().equals(&Sort::Int));
    assert!(read_single_term(definitions, "(f a a)").sort().equals(&Sort::Real));
    assert!(read_single_term(definitions, "(ite p (f a a) (f a 1))").sort().equals(&Sort::Real));
    assert!(read_single_term(definitions, "(< a 1)").sort().equals(&Sort::Bool));
    assert!(read_single_term(definitions, "(forall ((y Int)) (= y a))").sort().equals(&Sort::Bool));
}

#[test]
fn rationals_are_reduced() {
    let half = Rational::new(&Numeral::from_u64(2), &Numeral::from_u64(4)).unwrap();
    assert_eq!(half.numer().digits(), &vec![1u32]);
    assert_eq!(half.denom(), &vec![2u32]);
    let other = Rational::new(&Numeral::from_u64(1), &Numeral::from_u64(2)).unwrap();
    assert!(half.equals(&other));
    let negative = Rational::new(&Numeral::from_u64(3), &Numeral::new(true, vec![6])).unwrap();
    assert!(negative.numer().is_negative());
    assert_eq!(negative.denom(), &vec![2u32]);
    let zero = Rational::new(&Numeral::from_u64(0), &Numeral::from_u64(7)).unwrap();
    assert_eq!(zero.numer().digits(), &Vec::<u32>::new());
    assert_eq!(zero.denom(), &vec![1u32]);
    assert!(Rational::new(&Numeral::from_u64(1), &Numeral::from_u64(0)).is_none());
}

#[test]
fn numerals_are_canonical() {
    let big = Numeral::from_u64(0x1_0000_0005);
    assert_eq!(big.digits(), &vec![5u32, 1u32]);
    assert!(Numeral::from_u64(0).digits().is_empty());
    let trimmed = Numeral::new(true, vec![7, 0, 0]);
    assert_eq!(trimmed.digits(), &vec![7u32]);
    assert!(trimmed.is_negative());
    assert!(!Numeral::new(true, vec![0]).is_negative());
    assert!(Numeral::from_u64(5).equals(&Numeral::new(false, vec![5])));
}

#[test]
fn rule_functions_called_directly() {
    let definitions = "(declare-fun p () Bool) (declare-fun q () Bool)";
    let premise = ProofCommand::Assume(read_single_term(definitions, "(and p q)"));
    let conclusion = vec![read_single_term(definitions, "q")];
    assert!(alethe_checker::rules::clausification::and(&conclusion, &[&premise], &[]).is_some());
    let conclusion = vec![read_single_term(definitions, "(= p p)")];
    assert!(alethe_checker::rules::eq_reflexive(&conclusion, &[], &[]).is_some());
    assert!(alethe_checker::checker::apply_rule(Rule::EqReflexive, &conclusion, &[], &[]).is_some());
}

#[test]
fn negation_normal_form() {
    let definitions = "(declare-fun p () Bool) (declare-fun q () Bool) (declare-fun r () Bool) (declare-fun a () Int)";
    let cases = [
        ("(not (and p (not q)))", true, "(or (not p) q)"),
        ("(=> p q)", true, "(or (not p) q)"),
        ("(=> p q)", false, "(and p (not q))"),
        ("(ite p q r)", true, "(and (or (not p) q) (or p r))"),
        ("(ite p q r)", false, "(or (and p (not q)) (and (not p) (not r)))"),
        ("(not (forall ((x Int)) (= x a)))", true, "(exists ((x Int)) (not (= x a)))"),
        ("(= p q)", false, "(not (= p q))"),
    ];
    for (input, polarity, expected) in cases {
        let result = negative_normal_form(&read_single_term(definitions, input), polarity);
        assert!(result.equals(&read_single_term(definitions, expected)), "{}", input);
    }
}

#[test]
fn leading_negations_and_subterms() {
    let term = read_single_term(THREE_BOOLS, "(not (not (not (and p q))))");
    let (count, inner) = term.strip_leading_negations();
    assert_eq!(count, 3);
    assert!(inner.equals(&read_single_term(THREE_BOOLS, "(and p q)")));
    let atom_p = read_single_term(THREE_BOOLS, "p");
    let (count, inner) = atom_p.strip_leading_negations();
    assert_eq!(count, 0);
    assert!(inner.equals(&var("p", Sort::Bool)));

    let term = read_single_term(THREE_BOOLS, "(and p (not q) p)");
    let expected = ["(and p (not q) p)", "p", "(not q)", "q", "p"];
    let subterms = term.subterms();
    assert_eq!(subterms.len(), expected.len());
    for (got, want) in subterms.iter().zip(expected) {
        assert!(got.equals(&read_single_term(THREE_BOOLS, want)));
    }
    assert!(term.remove_negation().is_none());
    assert!(var("false", Sort::Bool).is_bool_false());
    assert!(!var("true", Sort::Bool).is_bool_false());
    assert!(var("true", Sort::Bool).is_bool_true());
}

#[test]
fn free_variables_skip_bound_names() {
    let definitions = "(declare-fun a () Int) (declare-fun b () Int) (declare-fun p () Bool)";
    let term = read_single_term(definitions, "(and p (= a b) (forall ((a Int)) (= a b)) p)");
    let free = free_variables(&term);
    assert_eq!(free.len(), 3);
    for name in ["p", "a", "b"] {
        let sort = if name == "p" { Sort::Bool } else { Sort::Int };
        assert!(free.iter().any(|v| v.equals(&var(name, sort.duplicate()))), "{}", name);
    }
    let closed = read_single_term(definitions, "(forall ((a Int) (b Int)) (= a b))");
    assert!(free_variables(&closed).is_empty());
}
