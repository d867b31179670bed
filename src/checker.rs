use crate::ast::{SpecTerm, Term};
use crate::commands::{arg_views, command_views, premise_views, Proof, ProofArg, ProofCommand, SpecArg, SpecCommand};
use crate::rules::clausification::{
    and, and_holds, distinct_elim, distinct_elim_holds, implies_holds, nary_elim,
    nary_elim_holds, or, or_holds,
};
use crate::rules::quantifier::{
    forall_inst, forall_inst_holds, qnt_join, qnt_join_holds, qnt_rm_unused, qnt_rm_unused_holds,
};
use crate::rules::{
    contraction, contraction_holds, eq_congruent, eq_congruent_holds, eq_reflexive,
    eq_reflexive_holds, eq_transitive, eq_transitive_holds, equiv_pos1, equiv_pos1_holds,
    equiv_pos2, equiv_pos2_holds, ite1, ite1_holds, ite2, ite2_holds, ite_intro, ite_intro_holds,
    not_not, not_not_holds, resolution, resolution_holds,
};
use crate::{Error, SpecError};
use vstd::prelude::*;

verus! {

/// The rules that the checker implements.
#[derive(Clone, Copy, Debug, PartialEq, Eq, Structural)]
pub enum Rule {
    NotNot,
    EquivPos1,
    EquivPos2,
    EqReflexive,
    EqTransitive,
    EqCongruent,
    DistinctElim,
    Resolution,
    And,
    Or,
    Implies,
    Ite1,
    Ite2,
    IteIntro,
    Contraction,
    NaryElim,
    ForallInst,
    QntJoin,
    QntRmUnused,
}

/// The rule registered under a name; `th_resolution` and `eq_congruent_pred` are aliases.
pub open spec fn rule_for_name(name: Seq<char>) -> Option<Rule> {
    if name == "not_not"@ {
        Some(Rule::NotNot)
    } else if name == "equiv_pos1"@ {
        Some(Rule::EquivPos1)
    } else if name == "equiv_pos2"@ {
        Some(Rule::EquivPos2)
    } else if name == "eq_reflexive"@ {
        Some(Rule::EqReflexive)
    } else if name == "eq_transitive"@ {
        Some(Rule::EqTransitive)
    } else if name == "eq_congruent"@ || name == "eq_congruent_pred"@ {
        Some(Rule::EqCongruent)
    } else if name == "distinct_elim"@ {
        Some(Rule::DistinctElim)
    } else if name == "th_resolution"@ || name == "resolution"@ {
        Some(Rule::Resolution)
    } else if name == "and"@ {
        Some(Rule::And)
    } else if name == "or"@ {
        Some(Rule::Or)
    } else if name == "implies"@ {
        Some(Rule::Implies)
    } else if name == "ite1"@ {
        Some(Rule::Ite1)
    } else if name == "ite2"@ {
        Some(Rule::Ite2)
    } else if name == "ite_intro"@ {
        Some(Rule::IteIntro)
    } else if name == "contraction"@ {
        Some(Rule::Contraction)
    } else if name == "nary_elim"@ {
        Some(Rule::NaryElim)
    } else if name == "forall_inst"@ {
        Some(Rule::ForallInst)
    } else if name == "qnt_join"@ {
        Some(Rule::QntJoin)
    } else if name == "qnt_rm_unused"@ {
        Some(Rule::QntRmUnused)
    } else {
        None
    }
}

/// Whether a step with this conclusion, premises and arguments is a valid application of `rule`.
pub open spec fn rule_holds(rule: Rule, c: Seq<SpecTerm>, ps: Seq<SpecCommand>, args: Seq<SpecArg>) -> bool {
    match rule {
        Rule::NotNot => not_not_holds(c),
        Rule::EquivPos1 => equiv_pos1_holds(c),
        Rule::EquivPos2 => equiv_pos2_holds(c),
        Rule::EqReflexive => eq_reflexive_holds(c),
        Rule::EqTransitive => eq_transitive_holds(c),
        Rule::EqCongruent => eq_congruent_holds(c),
        Rule::DistinctElim => distinct_elim_holds(c),
        Rule::Resolution => resolution_holds(c, ps),
        Rule::And => and_holds(c, ps),
        Rule::Or => or_holds(c, ps),
        Rule::Implies => implies_holds(c, ps),
        Rule::Ite1 => ite1_holds(c, ps),
        Rule::Ite2 => ite2_holds(c, ps),
        Rule::IteIntro => ite_intro_holds(c),
        Rule::Contraction => contraction_holds(c, ps),
        Rule::NaryElim => nary_elim_holds(c),
        Rule::ForallInst => forall_inst_holds(c, args),
        Rule::QntJoin => qnt_join_holds(c),
        Rule::QntRmUnused => qnt_rm_unused_holds(c),
    }
}

/// Applies `rule` to a step.
pub fn apply_rule(rule: Rule, conclusion: &[Term], premises: &[&ProofCommand], args: &[ProofArg]) -> (r:
    Option<()>)
    ensures
        r is Some <==> rule_holds(
            rule,
            Term::views(conclusion@),
            premise_views(premises@),
            arg_views(args@),
        ),
{
    match rule {
        Rule::NotNot => not_not(conclusion, premises, args),
        Rule::EquivPos1 => equiv_pos1(conclusion, premises, args),
        Rule::EquivPos2 => equiv_pos2(conclusion, premises, args),
        Rule::EqReflexive => eq_reflexive(conclusion, premises, args),
        Rule::EqTransitive => eq_transitive(conclusion, premises, args),
        Rule::EqCongruent => eq_congruent(conclusion, premises, args),
        Rule::DistinctElim => distinct_elim(conclusion, premises, args),
        Rule::Resolution => resolution(conclusion, premises, args),
        Rule::And => and(conclusion, premises, args),
        Rule::Or => or(conclusion, premises, args),
        Rule::Implies => crate::rules::clausification::implies(conclusion, premises, args),
        Rule::Ite1 => ite1(conclusion, premises, args),
        Rule::Ite2 => ite2(conclusion, premises, args),
        Rule::IteIntro => ite_intro(conclusion, premises, args),
        Rule::Contraction => contraction(conclusion, premises, args),
        Rule::NaryElim => nary_elim(conclusion, premises, args),
        Rule::ForallInst => forall_inst(conclusion, premises, args),
        Rule::QntJoin => qnt_join(conclusion, premises, args),
        Rule::QntRmUnused => qnt_rm_unused(conclusion, premises, args),
    }
}

/// The verdict on a proof.
#[derive(Clone, Copy, Debug, PartialEq, Eq, Structural)]
pub enum Correctness {
    /// Every step is a valid application of its rule.
    Valid,
    /// The command at this index is the first step that its rule rejects.
    Invalid { step: usize },
}

/// The first premise index that is not below `bound`.
pub open spec fn first_not_below(ps: Seq<usize>, bound: int) -> Option<usize>
    decreases ps.len(),
{
    if ps.len() == 0 {
        None
    } else if ps[0] >= bound {
        Some(ps[0])
    } else {
        first_not_below(ps.skip(1), bound)
    }
}

/// The verdict on the commands from index `i` on; steps with an unknown rule are skipped when
/// `lenient`, and fail the check otherwise.
pub open spec fn verdict_from(cmds: Seq<SpecCommand>, lenient: bool, i: int) -> Result<Correctness, SpecError>
    decreases cmds.len() - i,
{
    if i < 0 || i >= cmds.len() {
        Ok(Correctness::Valid)
    } else {
        match cmds[i] {
            SpecCommand::Assume(_) => verdict_from(cmds, lenient, i + 1),
            SpecCommand::Step { clause, rule, premises, args } => match rule_for_name(rule) {
                None => if lenient {
                    verdict_from(cmds, lenient, i + 1)
                } else {
                    Err(SpecError::UnknownRule { step: i as usize, rule })
                },
                Some(r) => match first_not_below(premises, i) {
                    Some(p) => Err(SpecError::PremiseOutOfRange { step: i as usize, premise: p }),
                    None => if rule_holds(
                        r,
                        clause,
                        Seq::new(premises.len(), |j: int| cmds[premises[j] as int]),
                        args,
                    ) {
                        verdict_from(cmds, lenient, i + 1)
                    } else {
                        Ok(Correctness::Invalid { step: i as usize })
                    },
                },
            },
        }
    }
}

/// Checks a proof step by step.
pub struct ProofChecker {
    proof: Proof,
    skip_unknown_rules: bool,
}

impl ProofChecker {
    pub closed spec fn commands(&self) -> Seq<SpecCommand> {
        self.proof@
    }

    pub closed spec fn lenient(&self) -> bool {
        self.skip_unknown_rules
    }

    /// A checker for `proof`; with `skip_unknown_rules`, steps whose rule is not implemented are
    /// skipped instead of failing the check.
    pub fn new(proof: Proof, skip_unknown_rules: bool) -> (r: ProofChecker)
        ensures
            r.commands() == proof@,
            r.lenient() == skip_unknown_rules,
    {
        ProofChecker { proof, skip_unknown_rules }
    }

    /// The rule registered under `rule_name`.
    pub fn get_rule(rule_name: &str) -> (r: Option<Rule>)
        ensures
            r == rule_for_name(rule_name@),
    {
        let name = rule_name.to_owned();
        if name == "not_not".to_owned() {
            Some(Rule::NotNot)
        } else if name == "equiv_pos1".to_owned() {
            Some(Rule::EquivPos1)
        } else if name == "equiv_pos2".to_owned() {
            Some(Rule::EquivPos2)
        } else if name == "eq_reflexive".to_owned() {
            Some(Rule::EqReflexive)
        } else if name == "eq_transitive".to_owned() {
            Some(Rule::EqTransitive)
        } else if name == "eq_congruent".to_owned() || name == "eq_congruent_pred".to_owned() {
            Some(Rule::EqCongruent)
        } else if name == "distinct_elim".to_owned() {
            Some(Rule::DistinctElim)
        } else if name == "th_resolution".to_owned() || name == "resolution".to_owned() {
            Some(Rule::Resolution)
        } else if name == "and".to_owned() {
            Some(Rule::And)
        } else if name == "or".to_owned() {
            Some(Rule::Or)
        } else if name == "implies".to_owned() {
            Some(Rule::Implies)
        } else if name == "ite1".to_owned() {
            Some(Rule::Ite1)
        } else if name == "ite2".to_owned() {
            Some(Rule::Ite2)
        } else if name == "ite_intro".to_owned() {
            Some(Rule::IteIntro)
        } else if name == "contraction".to_owned() {
            Some(Rule::Contraction)
        } else if name == "nary_elim".to_owned() {
            Some(Rule::NaryElim)
        } else if name == "forall_inst".to_owned() {
            Some(Rule::ForallInst)
        } else if name == "qnt_join".to_owned() {
            Some(Rule::QntJoin)
        } else if name == "qnt_rm_unused".to_owned() {
            Some(Rule::QntRmUnused)
        } else {
            None
        }
    }

    #[verifier::loop_isolation(false)]
    /// The verdict on the proof: the first step that its rule rejects makes it invalid; an
    /// unknown rule (unless skipped) or a premise that is not an earlier command is an error.
    pub fn check(&self) -> (r: Result<Correctness, Error>)
        ensures
            r matches Ok(v) ==> verdict_from(self.commands(), self.lenient(), 0) == Ok::<Correctness, SpecError>(v),
            r matches Err(e) ==> verdict_from(self.commands(), self.lenient(), 0) == Err::<Correctness, SpecError>(e@),
    {
        let commands = &self.proof.0;
        let ghost cmds = self.commands();
        let mut i: usize = 0;
        while i < commands.len()
            invariant
                i <= commands@.len(),
                cmds == command_views(commands@),
                cmds == self.commands(),
                verdict_from(cmds, self.lenient(), 0) == verdict_from(cmds, self.lenient(), i as int),
            decreases commands@.len() - i,
        {
            assert(cmds[i as int] == commands@[i as int]@);
            if let ProofCommand::Step { clause, rule, premises, args } = &commands[i] {
                match Self::get_rule(rule.as_str()) {
                    None => {
                        if !self.skip_unknown_rules {
                            return Err(Error::UnknownRule { step: i, rule: rule.clone() });
                        }
                    },
                    Some(r) => {
                        let mut resolved: Vec<&ProofCommand> = Vec::new();
                        let mut j: usize = 0;
                        assert(premises@.skip(0) =~= premises@);
                        while j < premises.len()
                            invariant
                                j <= premises@.len(),
                                i < commands@.len(),
                                cmds == command_views(commands@),
                                resolved@.len() == j,
                                first_not_below(premises@, i as int) == first_not_below(premises@.skip(j as int), i as int),
                                forall|m: int| 0 <= m < j ==> premises@[m] < i,
                                forall|m: int| 0 <= m < j ==> #[trigger] resolved@[m]@ == cmds[premises@[m] as int],
                            decreases premises@.len() - j,
                        {
                            let p = premises[j];
                            assert(premises@.skip(j as int)[0] == p);
                            if p >= i {
                                return Err(Error::PremiseOutOfRange { step: i, premise: p });
                            }
                            assert(premises@.skip(j as int).skip(1) =~= premises@.skip(j + 1));
                            assert(cmds[p as int] == commands@[p as int]@);
                            resolved.push(&commands[p]);
                            j = j + 1;
                        }
                        assert(premise_views(resolved@) =~= Seq::new(premises@.len(), |m: int| cmds[premises@[m] as int]));
                        if apply_rule(r, clause.as_slice(), resolved.as_slice(), args.as_slice()).is_none() {
                            return Ok(Correctness::Invalid { step: i });
                        }
                    },
                }
            }
            i = i + 1;
        }
        Ok(Correctness::Valid)
    }
}

} // verus!
