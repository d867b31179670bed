use crate::ast::{SpecTerm, Term};
use vstd::prelude::*;

verus! {

/// The model of a proof argument.
pub enum SpecArg {
    Term(SpecTerm),
    Assign(Seq<char>, SpecTerm),
}

/// An argument of a step: a term, or `(:= name value)` tying a bound variable to a term.
pub enum ProofArg {
    Term(Term),
    Assign(String, Term),
}

impl View for ProofArg {
    type V = SpecArg;

    open spec fn view(&self) -> SpecArg {
        match self {
            ProofArg::Term(t) => SpecArg::Term(t@),
            ProofArg::Assign(name, value) => SpecArg::Assign(name@, value@),
        }
    }
}

/// The models of a sequence of arguments.
pub open spec fn arg_views(args: Seq<ProofArg>) -> Seq<SpecArg> {
    Seq::new(args.len(), |i: int| args[i]@)
}

/// The model of a proof command.
pub enum SpecCommand {
    Assume(SpecTerm),
    Step { clause: Seq<SpecTerm>, rule: Seq<char>, premises: Seq<usize>, args: Seq<SpecArg> },
}

/// A command of a proof: an assumption, or a step that concludes a clause by a named rule from
/// earlier commands, given by their indices, and arguments.
pub enum ProofCommand {
    Assume(Term),
    Step { clause: Vec<Term>, rule: String, premises: Vec<usize>, args: Vec<ProofArg> },
}

impl View for ProofCommand {
    type V = SpecCommand;

    open spec fn view(&self) -> SpecCommand {
        match self {
            ProofCommand::Assume(t) => SpecCommand::Assume(t@),
            ProofCommand::Step { clause, rule, premises, args } => SpecCommand::Step {
                clause: Term::views(clause@),
                rule: rule@,
                premises: premises@,
                args: arg_views(args@),
            },
        }
    }
}

/// The models of a sequence of commands.
pub open spec fn command_views(cs: Seq<ProofCommand>) -> Seq<SpecCommand> {
    Seq::new(cs.len(), |i: int| cs[i]@)
}

/// The models of a sequence of premises.
pub open spec fn premise_views(ps: Seq<&ProofCommand>) -> Seq<SpecCommand> {
    Seq::new(ps.len(), |i: int| ps[i]@)
}

/// A proof: its commands in order.
pub struct Proof(pub Vec<ProofCommand>);

impl View for Proof {
    type V = Seq<SpecCommand>;

    open spec fn view(&self) -> Seq<SpecCommand> {
        command_views(self.0@)
    }
}

/// The clause of a command read as a sequence of literals: an assumption is a unit clause.
pub open spec fn clause_of(c: SpecCommand) -> Seq<SpecTerm> {
    match c {
        SpecCommand::Assume(t) => seq![t],
        SpecCommand::Step { clause, .. } => clause,
    }
}

/// The unique term of a command: the assumed term, or the only literal of a unit step.
pub open spec fn single_term(c: SpecCommand) -> Option<SpecTerm> {
    match c {
        SpecCommand::Assume(t) => Some(t),
        SpecCommand::Step { clause, .. } => if clause.len() == 1 {
            Some(clause[0])
        } else {
            None
        },
    }
}

} // verus!
