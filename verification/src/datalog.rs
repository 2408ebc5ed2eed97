use vstd::prelude::*;

use crate::database::Database;
use crate::pred_syms_of::PredSymsOf;
use crate::shared::{Denotation, PredSym, PredSymV, Value};

verus! {

/// A Datalog program: facts and rules; a precomputed model to merge; or
/// the join of two already staged fragments.
pub enum Datalog {
    Program(Vec<Constraint>, Vec<Constraint>),
    Model(Database),
    Join(Box<Datalog>, Box<Datalog>),
}

/// A constraint: one head atom derived from an ordered list of body
/// predicates.  A constraint with an empty body is a fact.
pub enum Constraint {
    Constraint(HeadPredicate, Vec<BodyPredicate>),
}

/// The head of a constraint.
pub enum HeadPredicate {
    HeadAtom(PredSym, Denotation, Vec<HeadTerm>),
}

/// One element of a constraint's body: a positive or negative atom, a
/// host-provided tuple generator binding its outputs to fresh variables, or
/// a guard predicate over bound variables.  Generators and guards name
/// caller-supplied functions by identifier.
pub enum BodyPredicate {
    BodyAtom(PredSym, Denotation, Polarity, Fixity, Vec<BodyTerm>),
    Functional(Vec<VarSym>, usize, Vec<VarSym>),
    Guard0(usize),
    Guard1(usize, VarSym),
    Guard2(usize, VarSym, VarSym),
    Guard3(usize, VarSym, VarSym, VarSym),
    Guard4(usize, VarSym, VarSym, VarSym, VarSym),
    Guard5(usize, VarSym, VarSym, VarSym, VarSym, VarSym),
}

/// A term of a head atom: a variable, a literal, or a caller-supplied
/// transformer applied to bound variables.
pub enum HeadTerm {
    Var(VarSym),
    Lit(Value),
    App0(usize),
    App1(usize, VarSym),
    App2(usize, VarSym, VarSym),
    App3(usize, VarSym, VarSym, VarSym),
    App4(usize, VarSym, VarSym, VarSym, VarSym),
    App5(usize, VarSym, VarSym, VarSym, VarSym, VarSym),
}

/// A term of a body atom: a wildcard, a variable, or a literal.
pub enum BodyTerm {
    Wild,
    Var(VarSym),
    Lit(Value),
}

/// A Datalog variable.
pub enum VarSym {
    VarSym(String),
}

/// Whether a body atom takes part in a lattice fixpoint (`Fixed`) or is an
/// ordinary atom (`Loose`).  Fixed atoms force their head into a strictly
/// higher stratum.
pub enum Fixity {
    Loose,
    Fixed,
}

/// Whether a body atom is positive or negated.  Negated atoms force their
/// head into a strictly higher stratum.
pub enum Polarity {
    Positive,
    Negative,
}

/// The textual marker a negative atom is printed with.
pub fn polarity_prefix(pl: &Polarity) -> (r: String)
    ensures
        r@ == match pl {
            Polarity::Negative => "not "@,
            Polarity::Positive => ""@,
        },
{
    match pl {
        Polarity::Negative => "not ".to_owned(),
        Polarity::Positive => "".to_owned(),
    }
}

/// The textual marker a fixed atom is printed with.
pub fn fixity_prefix(fx: &Fixity) -> (r: String)
    ensures
        r@ == match fx {
            Fixity::Fixed => "fix "@,
            Fixity::Loose => ""@,
        },
{
    match fx {
        Fixity::Fixed => "fix ".to_owned(),
        Fixity::Loose => "".to_owned(),
    }
}

impl PredSymsOf for BodyPredicate {
    /// A body atom mentions its predicate symbol; generators and guards
    /// mention none.
    open spec fn pred_syms(&self) -> Set<PredSymV> {
        match self {
            BodyPredicate::BodyAtom(sym, _, _, _, _) => set![sym@],
            _ => Set::empty(),
        }
    }

    fn pred_syms_of(&self) -> (r: Vec<PredSym>)
    {
        let mut syms: Vec<PredSym> = Vec::new();
        match self {
            BodyPredicate::BodyAtom(sym, _, _, _, _) => {
                syms.push(sym.clone());
                proof {
                    assert(syms.deep_view() =~= seq![sym@]);
                    assert(syms.deep_view()[0] == sym@);
                    assert(syms.deep_view().contains(sym@));
                    assert forall|x: PredSymV| syms.deep_view().contains(x) implies x == sym@ by {
                        let i = choose|i: int|
                            0 <= i < syms.deep_view().len() && syms.deep_view()[i] == x;
                        assert(i == 0);
                    }
                    assert(syms.deep_view().to_set() =~= self.pred_syms());
                }
            },
            _ => {
                proof {
                    assert(syms.deep_view() =~= Seq::<PredSymV>::empty());
                    assert forall|x: PredSymV| !syms.deep_view().contains(x) by {}
                    assert(syms.deep_view().to_set() =~= self.pred_syms());
                }
            },
        }
        syms
    }
}

} // verus!
