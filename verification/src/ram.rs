use vstd::prelude::*;

use crate::shared::{Denotation, DenotationV, PredSym, PredSymV, Value};

verus! {

/// Which of the three semi-naive roles a RAM relation plays: the
/// accumulated relation, the tuples newly derived in the prior iteration,
/// or the staging area for the current iteration.
pub enum SymKind {
    Full,
    Delta,
    New,
}

/// The identity of a RAM relation, as the database keys it: its role plus
/// the predicate's name and disambiguating id.  A symbol's arity and
/// denotation travel with it but are not part of its identity.
pub struct SymKey {
    pub kind: SymKind,
    pub name: Seq<char>,
    pub id: int,
}

/// A relation symbol of the RAM program: `Full`, `Delta` or `New` role of a
/// predicate, together with the relation's arity and denotation.
#[derive(Debug)]
pub enum RamSym {
    Full(PredSym, i32, Denotation),
    Delta(PredSym, i32, Denotation),
    New(PredSym, i32, Denotation),
}

impl RamSym {
    /// The role of this symbol.
    pub open spec fn kind(self) -> SymKind {
        match self {
            RamSym::Full(_, _, _) => SymKind::Full,
            RamSym::Delta(_, _, _) => SymKind::Delta,
            RamSym::New(_, _, _) => SymKind::New,
        }
    }

    /// The predicate symbol carried by this relation symbol.
    pub open spec fn sym(self) -> PredSymV {
        match self {
            RamSym::Full(s, _, _) => s@,
            RamSym::Delta(s, _, _) => s@,
            RamSym::New(s, _, _) => s@,
        }
    }

    /// The identity under which the database stores this symbol's relation.
    pub open spec fn key(self) -> SymKey {
        SymKey { kind: self.kind(), name: self.sym().name, id: self.sym().id }
    }

    /// The declared arity of the relation.
    pub open spec fn arity(self) -> i32 {
        match self {
            RamSym::Full(_, a, _) => a,
            RamSym::Delta(_, a, _) => a,
            RamSym::New(_, a, _) => a,
        }
    }

    /// The denotation of the relation.
    pub open spec fn den(self) -> DenotationV {
        match self {
            RamSym::Full(_, _, d) => d@,
            RamSym::Delta(_, _, d) => d@,
            RamSym::New(_, _, d) => d@,
        }
    }
}

impl Clone for RamSym {
    fn clone(&self) -> (r: Self)
        ensures
            r == *self,
    {
        match self {
            RamSym::Full(s, a, d) => RamSym::Full(s.clone(), *a, d.clone()),
            RamSym::Delta(s, a, d) => RamSym::Delta(s.clone(), *a, d.clone()),
            RamSym::New(s, a, d) => RamSym::New(s.clone(), *a, d.clone()),
        }
    }
}

impl PartialEq for RamSym {
    /// Two RAM symbols are the same relation when their roles and predicate
    /// symbols agree; arity and denotation do not take part in identity.
    fn eq(&self, other: &Self) -> bool {
        match (self, other) {
            (RamSym::Full(s1, _, _), RamSym::Full(s2, _, _)) => s1.eq_sym(s2),
            (RamSym::Delta(s1, _, _), RamSym::Delta(s2, _, _)) => s1.eq_sym(s2),
            (RamSym::New(s1, _, _), RamSym::New(s2, _, _)) => s1.eq_sym(s2),
            _ => false,
        }
    }
}

impl vstd::std_specs::cmp::PartialEqSpecImpl for RamSym {
    open spec fn obeys_eq_spec() -> bool {
        true
    }

    open spec fn eq_spec(&self, other: &Self) -> bool {
        self.key() == other.key()
    }
}

/// A loop variable of the RAM program: symbolic before lowering, a position
/// in the interpreter's flat environment afterwards.
#[derive(Debug)]
pub enum RowVar {
    Named(String),
    Index(i32),
}

/// The mathematical image of a [`RowVar`].
pub enum RowVarV {
    Named(Seq<char>),
    Index(i32),
}

impl View for RowVar {
    type V = RowVarV;

    open spec fn view(&self) -> RowVarV {
        match self {
            RowVar::Named(s) => RowVarV::Named(s@),
            RowVar::Index(i) => RowVarV::Index(*i),
        }
    }
}

impl DeepView for RowVar {
    type V = RowVarV;

    open spec fn deep_view(&self) -> RowVarV {
        self@
    }
}

impl Clone for RowVar {
    fn clone(&self) -> (r: Self)
        ensures
            r == *self,
    {
        match self {
            RowVar::Named(s) => RowVar::Named(s.clone()),
            RowVar::Index(i) => RowVar::Index(*i),
        }
    }
}

impl RowVar {
    /// Structural equality of two loop variables.
    pub fn eq_var(&self, other: &RowVar) -> (r: bool)
        ensures
            r == (self@ == other@),
    {
        match (self, other) {
            (RowVar::Named(a), RowVar::Named(b)) => *a == *b,
            (RowVar::Index(a), RowVar::Index(b)) => *a == *b,
            _ => false,
        }
    }
}

/// A term of the RAM program, evaluated against the search environment.
/// `Meet` and the `App` constructors reference caller-supplied functions by
/// identifier, resolved through the `Callables` capability.
#[derive(Debug)]
pub enum RamTerm {
    Lit(Value),
    RowLoad(RowVar, i32),
    LoadLatVar(RowVar),
    Meet(usize, Box<RamTerm>, Box<RamTerm>),
    App0(usize),
    App1(usize, Box<RamTerm>),
    App2(usize, Box<RamTerm>, Box<RamTerm>),
    App3(usize, Box<RamTerm>, Box<RamTerm>, Box<RamTerm>),
    App4(usize, Box<RamTerm>, Box<RamTerm>, Box<RamTerm>, Box<RamTerm>),
    App5(usize, Box<RamTerm>, Box<RamTerm>, Box<RamTerm>, Box<RamTerm>, Box<RamTerm>),
}

impl Clone for RamTerm {
    fn clone(&self) -> (r: Self)
        ensures
            r == *self,
        decreases *self,
    {
        match self {
            RamTerm::Lit(v) => RamTerm::Lit(v.clone()),
            RamTerm::RowLoad(var, i) => RamTerm::RowLoad(var.clone(), *i),
            RamTerm::LoadLatVar(var) => RamTerm::LoadLatVar(var.clone()),
            RamTerm::Meet(f, t1, t2) => RamTerm::Meet(
                *f,
                Box::new((**t1).clone()),
                Box::new((**t2).clone()),
            ),
            RamTerm::App0(f) => RamTerm::App0(*f),
            RamTerm::App1(f, t) => RamTerm::App1(*f, Box::new((**t).clone())),
            RamTerm::App2(f, t1, t2) => RamTerm::App2(
                *f,
                Box::new((**t1).clone()),
                Box::new((**t2).clone()),
            ),
            RamTerm::App3(f, t1, t2, t3) => RamTerm::App3(
                *f,
                Box::new((**t1).clone()),
                Box::new((**t2).clone()),
                Box::new((**t3).clone()),
            ),
            RamTerm::App4(f, t1, t2, t3, t4) => RamTerm::App4(
                *f,
                Box::new((**t1).clone()),
                Box::new((**t2).clone()),
                Box::new((**t3).clone()),
                Box::new((**t4).clone()),
            ),
            RamTerm::App5(f, t1, t2, t3, t4, t5) => RamTerm::App5(
                *f,
                Box::new((**t1).clone()),
                Box::new((**t2).clone()),
                Box::new((**t3).clone()),
                Box::new((**t4).clone()),
                Box::new((**t5).clone()),
            ),
        }
    }
}

/// A boolean test of the RAM program.  `Leq` and the `Guard` constructors
/// reference caller-supplied predicates by identifier.
#[derive(Debug)]
pub enum BoolExp {
    Empty(RamSym),
    NotMemberOf(Vec<RamTerm>, RamSym),
    Eq(RamTerm, RamTerm),
    Leq(usize, RamTerm, RamTerm),
    Guard0(usize),
    Guard1(usize, RamTerm),
    Guard2(usize, RamTerm, RamTerm),
    Guard3(usize, RamTerm, RamTerm, RamTerm),
    Guard4(usize, RamTerm, RamTerm, RamTerm, RamTerm),
    Guard5(usize, RamTerm, RamTerm, RamTerm, RamTerm, RamTerm),
}

/// A relational operation: a nested-loop tree whose single leaf projects a
/// derived tuple into a target relation.
#[derive(Debug)]
pub enum RelOp {
    Search(RowVar, RamSym, Box<RelOp>),
    Query(RowVar, RamSym, Vec<(i32, RamTerm)>, Box<RelOp>),
    Functional(RowVar, usize, Vec<RamTerm>, Box<RelOp>),
    Project(Vec<RamTerm>, RamSym),
    If(Vec<BoolExp>, Box<RelOp>),
}

/// A statement of the RAM program.  `Until(tests, body)` is the fixpoint
/// driver: it runs `body` until every test holds.
#[derive(Debug)]
pub enum RamStmt {
    Insert(RelOp),
    Merge(Box<RamSym>, Box<RamSym>),
    Assign(Box<RamSym>, Box<RamSym>),
    Purge(Box<RamSym>),
    Sequence(Vec<RamStmt>),
    Until(Vec<BoolExp>, Box<RamStmt>),
    Comment(String),
}

/// The declared arity of a RAM relation symbol.
pub fn arity_of(ram_sym: RamSym) -> (r: i32)
    ensures
        r == ram_sym.arity(),
{
    match ram_sym {
        RamSym::Full(_, arity, _) => arity,
        RamSym::Delta(_, arity, _) => arity,
        RamSym::New(_, arity, _) => arity,
    }
}

/// The denotation carried by a RAM relation symbol.
pub fn into_denotation(ram_sym: &RamSym) -> (r: &Denotation)
    ensures
        r@ == ram_sym.den(),
{
    match ram_sym {
        RamSym::Full(_, _, den) => den,
        RamSym::Delta(_, _, den) => den,
        RamSym::New(_, _, den) => den,
    }
}

} // verus!
