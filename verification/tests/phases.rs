use fixpoint::database::{Database, Relations};
use fixpoint::datalog::{
    fixity_prefix, polarity_prefix, BodyPredicate, BodyTerm, Constraint, Datalog, Fixity,
    HeadPredicate, HeadTerm, Polarity,
};
use fixpoint::precedence_graph::{PrecedenceEdge, PrecedenceGraph};
use fixpoint::pred_syms_of::PredSymsOf;
use fixpoint::ram::{RamSym, RowVar};
use fixpoint::ram::{arity_of, into_denotation};
use fixpoint::shared::{Denotation, PredSym, Value};
use fixpoint::stratifier::{stratify, StratifyError};

fn pred(name: &str, id: i64) -> PredSym {
    PredSym { name: name.to_string(), id }
}

fn atom(name: &str, pol: Polarity, fix: Fixity) -> BodyPredicate {
    BodyPredicate::BodyAtom(pred(name, 0), Denotation::Relational, pol, fix, Vec::new())
}

fn rule(head: &str, body: Vec<BodyPredicate>) -> Constraint {
    Constraint::Constraint(
        HeadPredicate::HeadAtom(pred(head, 0), Denotation::Relational, Vec::<HeadTerm>::new()),
        body,
    )
}

#[test]
fn no_negation_gives_stratum_zero() {
    // ancestor depends positively on parent and itself: everything stays in
    // stratum 0.
    let d = Datalog::Program(
        Vec::new(),
        vec![
            rule("ancestor", vec![atom("parent", Polarity::Positive, Fixity::Loose)]),
            rule(
                "ancestor",
                vec![
                    atom("parent", Polarity::Positive, Fixity::Loose),
                    atom("ancestor", Polarity::Positive, Fixity::Loose),
                ],
            ),
        ],
    );
    let m = stratify(&d).expect("stratifiable");
    assert_eq!(m.get(&pred("ancestor", 0)), Some(0));
    assert_eq!(m.get(&pred("parent", 0)), None);
}

#[test]
fn negation_raises_stratum() {
    // p(x) :- e(x), not q(x) and q is itself derived: q sits strictly below p.
    let d = Datalog::Program(
        Vec::new(),
        vec![
            rule("q", vec![atom("e", Polarity::Positive, Fixity::Loose)]),
            rule(
                "p",
                vec![
                    atom("e", Polarity::Positive, Fixity::Loose),
                    atom("q", Polarity::Negative, Fixity::Loose),
                ],
            ),
        ],
    );
    let m = stratify(&d).expect("stratifiable");
    let q = m.get(&pred("q", 0)).unwrap();
    let p = m.get(&pred("p", 0)).unwrap();
    assert!(q < p);
    assert_eq!(q, 0);
    assert_eq!(p, 1);
}

#[test]
fn fixed_atom_raises_stratum() {
    let d = Datalog::Program(
        Vec::new(),
        vec![
            rule("d", vec![atom("e", Polarity::Positive, Fixity::Loose)]),
            rule("s", vec![atom("d", Polarity::Positive, Fixity::Fixed)]),
        ],
    );
    let m = stratify(&d).expect("stratifiable");
    assert_eq!(m.get(&pred("d", 0)), Some(0));
    assert_eq!(m.get(&pred("s", 0)), Some(1));
}

#[test]
fn strong_cycle_is_rejected() {
    // p :- not p is unstratifiable.
    let d = Datalog::Program(
        Vec::new(),
        vec![rule("p", vec![atom("p", Polarity::Negative, Fixity::Loose)])],
    );
    assert!(matches!(stratify(&d), Err(StratifyError::StrongCycle)));
}

#[test]
fn join_takes_pointwise_maximum() {
    let d1 = Datalog::Program(
        Vec::new(),
        vec![
            rule("q", vec![atom("e", Polarity::Positive, Fixity::Loose)]),
            rule(
                "p",
                vec![atom("q", Polarity::Negative, Fixity::Loose)],
            ),
        ],
    );
    let d2 = Datalog::Program(
        Vec::new(),
        vec![
            rule("p", vec![atom("e", Polarity::Positive, Fixity::Loose)]),
            rule("r", vec![atom("e", Polarity::Positive, Fixity::Loose)]),
        ],
    );
    let m1 = stratify(&d1).expect("stratifiable");
    let m2 = stratify(&d2).expect("stratifiable");
    let joined = stratify(&Datalog::Join(Box::new(d1), Box::new(d2))).expect("stratifiable");
    // p: max(1, 0) == 1; q only in d1; r only in d2.
    assert_eq!(m1.get(&pred("p", 0)), Some(1));
    assert_eq!(m2.get(&pred("p", 0)), Some(0));
    assert_eq!(joined.get(&pred("p", 0)), Some(1));
    assert_eq!(joined.get(&pred("q", 0)), Some(0));
    assert_eq!(joined.get(&pred("r", 0)), Some(0));
}

#[test]
fn model_has_no_strata() {
    let d = Datalog::Model(Database::new());
    let m = stratify(&d).expect("a model always stratifies");
    assert_eq!(m.len(), 0);
}

#[test]
fn symbols_differ_by_id() {
    let d = Datalog::Program(
        Vec::new(),
        vec![
            rule("q", vec![atom("e", Polarity::Positive, Fixity::Loose)]),
            Constraint::Constraint(
                HeadPredicate::HeadAtom(pred("p", 7), Denotation::Relational, Vec::new()),
                vec![BodyPredicate::BodyAtom(
                    pred("q", 0),
                    Denotation::Relational,
                    Polarity::Negative,
                    Fixity::Loose,
                    Vec::<BodyTerm>::new(),
                )],
            ),
        ],
    );
    let m = stratify(&d).expect("stratifiable");
    assert_eq!(m.get(&pred("p", 7)), Some(1));
    assert_eq!(m.get(&pred("p", 0)), None);
}

#[test]
fn body_atom_mentions_its_symbol() {
    let a = atom("edge", Polarity::Positive, Fixity::Loose);
    let syms = a.pred_syms_of();
    assert_eq!(syms.len(), 1);
    assert!(syms[0].eq_sym(&pred("edge", 0)));
    let g = BodyPredicate::Guard0(0);
    assert_eq!(g.pred_syms_of().len(), 0);
}

#[test]
fn printing_prefixes() {
    assert_eq!(polarity_prefix(&Polarity::Negative), "not ");
    assert_eq!(polarity_prefix(&Polarity::Positive), "");
    assert_eq!(fixity_prefix(&Fixity::Fixed), "fix ");
    assert_eq!(fixity_prefix(&Fixity::Loose), "");
}

#[test]
fn precedence_graph_deduplicates() {
    let mut g = PrecedenceGraph::new();
    let e1 = PrecedenceEdge::WeakEdge(pred("a", 0), pred("b", 0));
    let e2 = PrecedenceEdge::WeakEdge(pred("a", 0), pred("b", 0));
    let e3 = PrecedenceEdge::StrongEdge(pred("a", 0), pred("b", 0));
    assert!(g.insert(e1));
    assert!(!g.insert(e2));
    assert!(g.insert(e3));
    assert_eq!(g.len(), 2);
    assert!(g.edge_at(0).eq_edge(&PrecedenceEdge::WeakEdge(pred("a", 0), pred("b", 0))));
}

fn sym(name: &str) -> RamSym {
    RamSym::Full(pred(name, 0), 1, Denotation::Relational)
}

#[test]
fn database_store_and_remove() {
    let mut db = Database::new();
    let mut rel = Relations::new();
    rel.store(vec![Value::Int32(1)], Value::default());
    rel.store(vec![Value::Int32(2)], Value::default());
    rel.store(vec![Value::Int32(1)], Value::Bool(true));
    assert_eq!(rel.len(), 2);
    assert!(!db.insert_relations(sym("t"), rel));
    assert!(db.rel_get(&sym("t"), &vec![Value::Int32(1)]).unwrap().eq_value(&Value::Bool(true)));
    assert!(db.rel_get(&sym("t"), &vec![Value::Int32(3)]).is_none());
    assert!(!db.rel_is_empty(&sym("t")));
    assert!(db.remove(&sym("t")));
    assert!(!db.remove(&sym("t")));
    assert!(db.rel_is_empty(&sym("t")));
}

#[test]
fn database_roles_are_distinct() {
    let mut db = Database::new();
    db.rel_store(&sym("t"), vec![Value::Int32(1)], Value::default());
    let d = RamSym::Delta(pred("t", 0), 1, Denotation::Relational);
    assert!(db.rel_is_empty(&d));
    assert!(!db.rel_is_empty(&sym("t")));
}

#[test]
fn database_extend_prefers_other() {
    let mut db1 = Database::new();
    let mut r1 = Relations::new();
    r1.store(vec![Value::Int32(1)], Value::default());
    db1.insert_relations(sym("t"), r1);
    let mut db2 = Database::new();
    let mut r2 = Relations::new();
    r2.store(vec![Value::Int32(2)], Value::default());
    db2.insert_relations(sym("t"), r2);
    let mut r3 = Relations::new();
    r3.store(vec![Value::Int32(3)], Value::default());
    db2.insert_relations(sym("u"), r3);
    db1.extend(db2);
    assert!(db1.rel_get(&sym("t"), &vec![Value::Int32(2)]).is_some());
    assert!(db1.rel_get(&sym("t"), &vec![Value::Int32(1)]).is_none());
    assert!(db1.rel_get(&sym("u"), &vec![Value::Int32(3)]).is_some());
}

#[test]
fn database_eval_inplace() {
    let mut db = Database::new();
    db.rel_store(&sym("t"), vec![Value::Int32(1)], Value::default());
    let n = db.eval_inplace(sym("t"), |rel: &Relations| rel.len());
    assert_eq!(n, 1);
    let empty = db.eval_inplace(sym("v"), |rel: &Relations| rel.is_empty());
    assert!(empty);
    // The probe on an absent relation installed an empty one.
    assert!(!db.remove(&sym("w")));
    assert!(db.remove(&sym("v")));
}

#[test]
fn database_eval_inplace_or_insert_mut() {
    let mut db = Database::new();
    let grew = db.eval_inplace_or_insert_mut(sym("t"), |mut rel: Relations| {
        rel.store(vec![Value::Int32(9)], Value::default());
        let n = rel.len();
        (rel, n)
    });
    assert_eq!(grew, 1);
    assert!(db.rel_get(&sym("t"), &vec![Value::Int32(9)]).is_some());
}

#[test]
fn get_relations_or_default_falls_back() {
    let mut db = Database::new();
    db.rel_store(&sym("t"), vec![Value::Int32(1)], Value::default());
    let d = Relations::new();
    assert_eq!(db.get_relations_or_default(&sym("t"), &d).len(), 1);
    assert_eq!(db.get_relations_or_default(&sym("u"), &d).len(), 0);
    db.get_relations_or_insert(sym("u"));
    assert!(!db.remove(&sym("x")));
    assert!(db.remove(&sym("u")));
}

#[test]
fn ram_sym_identity_ignores_arity_and_denotation() {
    let a = RamSym::Full(pred("t", 0), 1, Denotation::Relational);
    let b = RamSym::Full(pred("t", 0), 2, Denotation::Relational);
    let c = RamSym::Delta(pred("t", 0), 1, Denotation::Relational);
    assert!(a == b);
    assert!(a != c);
    assert_eq!(arity_of(a.clone()), 1);
    assert!(into_denotation(&a).is_relational());
}

#[test]
fn search_env_binds_by_depth() {
    let mut env = fixpoint::search_env::SearchEnv::new(2);
    assert_eq!(env.depth(), 2);
    assert_eq!(env.lat_depth(), 2);
    assert_eq!(env.tuple_len(0), 0);
    env.update_tuple_env(0, vec![Value::Int32(7), Value::Int32(8)]);
    env.update_lat_env(1, Value::Int32(9));
    assert_eq!(env.tuple_len(0), 2);
    assert!(env.get_tuple_var(0, 1).eq_value(&Value::Int32(8)));
    assert!(env.get_lat_var(1).eq_value(&Value::Int32(9)));
    assert!(env.get_lat_var(0).eq_value(&Value::Bool(false)));
}

#[test]
fn values_compare_by_content() {
    assert!(Value::Str("ab".to_string()).eq_value(&Value::Str("ab".to_string())));
    assert!(!Value::Str("ab".to_string()).eq_value(&Value::Str("ac".to_string())));
    assert!(!Value::Bool(false).eq_value(&Value::Int32(0)));
    assert!(Value::default().eq_value(&Value::Bool(false)));
    let v = RowVar::Named("x".to_string());
    assert!(v.eq_var(&v.clone()));
    assert!(!v.eq_var(&RowVar::Index(0)));
}
