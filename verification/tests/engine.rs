use fixpoint::callable::IntOps;
use fixpoint::database::Database;
use fixpoint::interpreter::{interpret, interpret_with_database, EvalError};
use fixpoint::ram::{BoolExp, RamStmt, RamSym, RamTerm, RelOp, RowVar};
use fixpoint::shared::{Denotation, PredSym, Value};
use fixpoint::simplifier::simplify_stmt;
use fixpoint::vars_to_indices::lower_stmt;
use fixpoint::index_selection::query_stmt;

fn pred(name: &str, id: i64) -> PredSym {
    PredSym { name: name.to_string(), id }
}

fn full(name: &str, arity: i32) -> RamSym {
    RamSym::Full(pred(name, 0), arity, Denotation::Relational)
}

fn delta(name: &str, arity: i32) -> RamSym {
    RamSym::Delta(pred(name, 0), arity, Denotation::Relational)
}

fn new_sym(name: &str, arity: i32) -> RamSym {
    RamSym::New(pred(name, 0), arity, Denotation::Relational)
}

fn s(v: &str) -> Value {
    Value::Str(v.to_string())
}

fn lit(v: Value) -> RamTerm {
    RamTerm::Lit(v)
}

fn load(var: &str, i: i32) -> RamTerm {
    RamTerm::RowLoad(RowVar::Named(var.to_string()), i)
}

fn named(var: &str) -> RowVar {
    RowVar::Named(var.to_string())
}

fn project(terms: Vec<RamTerm>, sym: RamSym) -> RamStmt {
    RamStmt::Insert(RelOp::Project(terms, sym))
}

/// The semi-naive transitive-closure program over `parent`, written with
/// symbolic variables.
fn closure_program() -> RamStmt {
    let rule_init = RamStmt::Insert(RelOp::Search(
        named("p"),
        full("parent", 2),
        Box::new(RelOp::Project(vec![load("p", 0), load("p", 1)], full("ancestor", 2))),
    ));
    let delta_init = RamStmt::Insert(RelOp::Search(
        named("p"),
        full("parent", 2),
        Box::new(RelOp::Project(vec![load("p", 0), load("p", 1)], delta("ancestor", 2))),
    ));
    let step = RamStmt::Insert(RelOp::Search(
        named("p"),
        full("parent", 2),
        Box::new(RelOp::Search(
            named("d"),
            delta("ancestor", 2),
            Box::new(RelOp::If(
                vec![
                    BoolExp::Eq(load("p", 1), load("d", 0)),
                    BoolExp::NotMemberOf(
                        vec![load("p", 0), load("d", 1)],
                        full("ancestor", 2),
                    ),
                ],
                Box::new(RelOp::Project(
                    vec![load("p", 0), load("d", 1)],
                    new_sym("ancestor", 2),
                )),
            )),
        )),
    ));
    RamStmt::Sequence(vec![
        project(vec![lit(s("a")), lit(s("b"))], full("parent", 2)),
        project(vec![lit(s("b")), lit(s("c"))], full("parent", 2)),
        rule_init,
        delta_init,
        RamStmt::Until(
            vec![BoolExp::Empty(delta("ancestor", 2))],
            Box::new(RamStmt::Sequence(vec![
                RamStmt::Purge(Box::new(new_sym("ancestor", 2))),
                step,
                RamStmt::Merge(Box::new(new_sym("ancestor", 2)), Box::new(full("ancestor", 2))),
                RamStmt::Assign(Box::new(delta("ancestor", 2)), Box::new(new_sym("ancestor", 2))),
            ])),
        ),
    ])
}

fn run(stmt: RamStmt) -> Database {
    let lowered = lower_stmt(stmt).unwrap_or(RamStmt::Sequence(Vec::new()));
    interpret(&IntOps, &lowered).expect("evaluation should succeed")
}

fn has(db: &Database, sym: &RamSym, tuple: Vec<Value>) -> bool {
    db.rel_get(sym, &tuple).is_some()
}

#[test]
fn transitive_closure() {
    let db = run(closure_program());
    let anc = full("ancestor", 2);
    assert!(has(&db, &anc, vec![s("a"), s("b")]));
    assert!(has(&db, &anc, vec![s("b"), s("c")]));
    assert!(has(&db, &anc, vec![s("a"), s("c")]));
    assert!(!has(&db, &anc, vec![s("c"), s("a")]));
    assert!(!has(&db, &anc, vec![s("a"), s("a")]));
    assert_eq!(db.rel_clone_rows(&anc).len(), 3);
}

#[test]
fn stratified_negation() {
    // Stratum 0 materializes e and q; stratum 1 derives p(x) :- e(x), not q(x).
    let one = Value::Int32(1);
    let two = Value::Int32(2);
    let program = RamStmt::Sequence(vec![
        project(vec![lit(one.clone())], full("e", 1)),
        project(vec![lit(two.clone())], full("e", 1)),
        project(vec![lit(one.clone())], full("q", 1)),
        RamStmt::Insert(RelOp::Search(
            named("x"),
            full("e", 1),
            Box::new(RelOp::If(
                vec![BoolExp::NotMemberOf(vec![load("x", 0)], full("q", 1))],
                Box::new(RelOp::Project(vec![load("x", 0)], full("p", 1))),
            )),
        )),
    ]);
    let db = run(program);
    let p = full("p", 1);
    assert!(!has(&db, &p, vec![one]));
    assert!(has(&db, &p, vec![two]));
    assert_eq!(db.rel_clone_rows(&p).len(), 1);
}

/// The shortest-distance lattice: bottom is the largest cost, `leq` is the
/// reversed numeric order (a smaller cost is a larger lattice element),
/// `lub` keeps the minimum and `glb` the maximum.
fn dist_sym() -> RamSym {
    RamSym::Full(pred("dist", 0), 2, Denotation::Latticenal(Value::Int32(i32::MAX), 1, 0, 1))
}

#[test]
fn lattice_shortest_distance() {
    let program = RamStmt::Sequence(vec![
        project(vec![lit(s("a")), lit(Value::Int32(5))], dist_sym()),
        project(vec![lit(s("a")), lit(Value::Int32(3))], dist_sym()),
    ]);
    let db = run(program);
    let stored = db.rel_get(&dist_sym(), &vec![s("a")]).cloned();
    assert!(stored.is_some());
    assert!(stored.unwrap().eq_value(&Value::Int32(3)));
}

#[test]
fn lattice_merge_is_order_insensitive() {
    let forward = run(RamStmt::Sequence(vec![
        project(vec![lit(s("a")), lit(Value::Int32(5))], dist_sym()),
        project(vec![lit(s("a")), lit(Value::Int32(3))], dist_sym()),
    ]));
    let backward = run(RamStmt::Sequence(vec![
        project(vec![lit(s("a")), lit(Value::Int32(3))], dist_sym()),
        project(vec![lit(s("a")), lit(Value::Int32(5))], dist_sym()),
    ]));
    let f = forward.rel_get(&dist_sym(), &vec![s("a")]).cloned().unwrap();
    let b = backward.rel_get(&dist_sym(), &vec![s("a")]).cloned().unwrap();
    assert!(f.eq_value(&b));
    assert!(f.eq_value(&Value::Int32(3)));
}

#[test]
fn lattice_bottom_is_discarded() {
    // The bottom cost is at the bottom of the lattice: projecting it stores
    // nothing.
    let db = run(project(vec![lit(s("a")), lit(Value::Int32(i32::MAX))], dist_sym()));
    assert!(db.rel_get(&dist_sym(), &vec![s("a")]).is_none());
}

#[test]
fn purge_then_empty() {
    // After a purge, an emptiness test on the relation holds, so the guarded
    // projection fires.
    let program = RamStmt::Sequence(vec![
        project(vec![lit(s("x"))], full("t", 1)),
        RamStmt::Purge(Box::new(full("t", 1))),
        RamStmt::Insert(RelOp::If(
            vec![BoolExp::Empty(full("t", 1))],
            Box::new(RelOp::Project(vec![lit(s("ok"))], full("mark", 1))),
        )),
        RamStmt::Insert(RelOp::If(
            vec![BoolExp::NotMemberOf(vec![lit(s("x"))], full("t", 1))],
            Box::new(RelOp::Project(vec![lit(s("gone"))], full("mark", 1))),
        )),
    ]);
    let db = run(program);
    assert!(has(&db, &full("mark", 1), vec![s("ok")]));
    assert!(has(&db, &full("mark", 1), vec![s("gone")]));
    assert!(!has(&db, &full("t", 1), vec![s("x")]));
}

#[test]
fn purged_source_merges_nothing() {
    let program = RamStmt::Sequence(vec![
        project(vec![lit(s("x"))], full("src", 1)),
        RamStmt::Purge(Box::new(full("src", 1))),
        RamStmt::Merge(Box::new(full("src", 1)), Box::new(full("dst", 1))),
    ]);
    let db = run(program);
    assert_eq!(db.rel_clone_rows(&full("dst", 1)).len(), 0);
}

#[test]
fn interpretation_is_deterministic() {
    let db1 = run(closure_program());
    let db2 = run(closure_program());
    let anc = full("ancestor", 2);
    assert_eq!(db1.rel_clone_rows(&anc).len(), db2.rel_clone_rows(&anc).len());
    assert_eq!(
        has(&db1, &anc, vec![s("a"), s("c")]),
        has(&db2, &anc, vec![s("a"), s("c")]),
    );
}

#[test]
fn optimizer_is_transparent_on_closure() {
    // interpret(P) and interpret(optimize(P)) agree: the central correctness
    // property of the optimization passes, checked here on concrete programs.
    let plain = run(closure_program());
    let optimized_stmt = simplify_stmt(query_stmt(closure_program()));
    let optimized = run(optimized_stmt);
    let anc = full("ancestor", 2);
    assert_eq!(
        plain.rel_clone_rows(&anc).len(),
        optimized.rel_clone_rows(&anc).len(),
    );
    for t in [
        vec![s("a"), s("b")],
        vec![s("b"), s("c")],
        vec![s("a"), s("c")],
        vec![s("c"), s("c")],
    ] {
        assert_eq!(has(&plain, &anc, t.clone()), has(&optimized, &anc, t));
    }
}

#[test]
fn prefix_query_rewrite_preserves_results() {
    // An equi-join whose inner search has a prefix equality: the optimizer
    // turns it into an indexed query; both forms give the same database.
    let join = |tag: &str| {
        RamStmt::Sequence(vec![
            project(vec![lit(s("a")), lit(Value::Int32(1))], full("l", 2)),
            project(vec![lit(s("b")), lit(Value::Int32(2))], full("l", 2)),
            project(vec![lit(s("a")), lit(s("x"))], full("r", 2)),
            project(vec![lit(s("b")), lit(s("y"))], full("r", 2)),
            project(vec![lit(s(tag))], full("tag", 1)),
            RamStmt::Insert(RelOp::Search(
                named("u"),
                full("l", 2),
                Box::new(RelOp::Search(
                    named("v"),
                    full("r", 2),
                    Box::new(RelOp::If(
                        vec![BoolExp::Eq(load("v", 0), load("u", 0))],
                        Box::new(RelOp::Project(
                            vec![load("u", 1), load("v", 1)],
                            full("out", 2),
                        )),
                    )),
                )),
            )),
        ])
    };
    let plain = run(join("p"));
    let optimized = run(simplify_stmt(query_stmt(join("p"))));
    let out = full("out", 2);
    for t in [
        vec![Value::Int32(1), s("x")],
        vec![Value::Int32(2), s("y")],
        vec![Value::Int32(1), s("y")],
    ] {
        assert_eq!(has(&plain, &out, t.clone()), has(&optimized, &out, t));
    }
    assert_eq!(
        plain.rel_clone_rows(&out).len(),
        optimized.rel_clone_rows(&out).len(),
    );
}

#[test]
fn copy_loop_becomes_merge() {
    let copy = RamStmt::Insert(RelOp::Search(
        named("b"),
        full("b", 2),
        Box::new(RelOp::Project(vec![load("b", 0), load("b", 1)], full("a", 2))),
    ));
    let simplified = simplify_stmt(copy);
    assert!(matches!(simplified, RamStmt::Merge(_, _)));

    // A latticenal destination must keep the loop.
    let lat_copy = RamStmt::Insert(RelOp::Search(
        named("b"),
        RamSym::Full(pred("b", 0), 2, Denotation::Relational),
        Box::new(RelOp::Project(vec![load("b", 0), load("b", 1)], dist_sym())),
    ));
    assert!(matches!(simplify_stmt(lat_copy), RamStmt::Insert(_)));

    // So must a destination declared at a different arity.
    let arity_mismatch = RamStmt::Insert(RelOp::Search(
        named("b"),
        full("b", 2),
        Box::new(RelOp::Project(vec![load("b", 0), load("b", 1)], full("a", 3))),
    ));
    assert!(matches!(simplify_stmt(arity_mismatch), RamStmt::Insert(_)));
}

#[test]
fn tautologies_are_deleted() {
    let stmt = RamStmt::Insert(RelOp::If(
        vec![
            BoolExp::Eq(lit(Value::Int32(7)), lit(Value::Int32(7))),
            BoolExp::Leq(0, load("x", 0), load("x", 0)),
        ],
        Box::new(RelOp::Project(vec![lit(s("k"))], full("m", 1))),
    ));
    match simplify_stmt(stmt) {
        RamStmt::Insert(RelOp::If(test, _)) => assert_eq!(test.len(), 0),
        other => panic!("unexpected shape: {:?}", other),
    }
}

#[test]
fn unresolved_variable_is_fatal() {
    // Interpretation before lowering trips on the symbolic variable.
    let stmt = RamStmt::Insert(RelOp::Search(
        named("x"),
        full("e", 1),
        Box::new(RelOp::Project(vec![load("x", 0)], full("p", 1))),
    ));
    let mut db = Database::new();
    db.rel_store(&full("e", 1), vec![Value::Int32(1)], Value::default());
    let r = interpret_with_database(&IntOps, &mut db, &stmt);
    assert_eq!(r, Err(EvalError::UnresolvedVar));
}

#[test]
fn out_of_range_load_is_fatal() {
    let stmt = RamStmt::Insert(RelOp::Project(
        vec![RamTerm::RowLoad(RowVar::Index(3), 0)],
        full("p", 1),
    ));
    let r = interpret(&IntOps, &stmt);
    assert!(matches!(r, Err(EvalError::OutOfBounds)));
}

#[test]
fn latticenal_projection_needs_terms() {
    let stmt = RamStmt::Insert(RelOp::Project(Vec::new(), dist_sym()));
    let r = interpret(&IntOps, &stmt);
    assert!(matches!(r, Err(EvalError::EmptyLatticenal)));
}

#[test]
fn generator_binds_tuples() {
    // The identity generator of IntOps yields its argument tuple once.
    let stmt = RamStmt::Insert(RelOp::Functional(
        named("g"),
        0,
        vec![lit(Value::Int32(4)), lit(Value::Int32(9))],
        Box::new(RelOp::Project(vec![load("g", 0), load("g", 1)], full("gen", 2))),
    ));
    let db = run(stmt);
    assert!(has(&db, &full("gen", 2), vec![Value::Int32(4), Value::Int32(9)]));
    assert_eq!(db.rel_clone_rows(&full("gen", 2)).len(), 1);
}
