use vstd::prelude::*;

use crate::callable::Callables;
use crate::database::{
    clone_row, db_rows_or_empty, lemma_store_lookup, lemma_store_lookup_other, rows_lookup,
    rows_store, Database, DbV, RowsV,
};
use crate::ram::{BoolExp, RamStmt, RamSym, RamTerm, RelOp, RowVar, SymKey};
use crate::search_env::SearchEnv;
use crate::shared::{DenotationV, Value, ValueV};

verus! {

/// Why evaluation stopped.  The first three are fatal internal-consistency
/// violations of the RAM program (a bug in an earlier phase, never a
/// legitimate runtime condition); the last is the machine bound on the
/// fixpoint driver.
#[derive(Clone, Copy, Debug, PartialEq, Eq, Structural)]
pub enum EvalError {
    /// A `RowLoad` or `LoadLatVar` still carries a symbolic variable:
    /// lowering must precede interpretation.
    UnresolvedVar,
    /// A load or a query position lies outside the environment, the bound
    /// tuple, or the scanned tuple.
    OutOfBounds,
    /// A latticenal projection or membership test was given no terms.
    EmptyLatticenal,
    /// The fixpoint driver ran for `u64::MAX` passes without reaching a
    /// fixpoint; a monotone body over finite domains stops far earlier.
    IterationLimit,
}

/// The image of a search environment: a tuple binding and a lattice-value
/// binding per nesting depth.
pub type EnvV = (Seq<Seq<ValueV>>, Seq<ValueV>);

/// A fresh environment of `d` levels: empty tuples, default lattice values.
pub open spec fn empty_env(d: nat) -> EnvV {
    (
        Seq::new(d, |i: int| Seq::<ValueV>::empty()),
        Seq::new(d, |i: int| ValueV::Bool(false)),
    )
}

/// The maximum loop-nesting depth of an operation tree: one slot per
/// `Search`, `Query` or `Functional` level above the projecting leaf.
pub open spec fn op_depth(op: RelOp) -> nat
    decreases op,
{
    match op {
        RelOp::Search(_, _, body) => 1 + op_depth(*body),
        RelOp::Query(_, _, _, body) => 1 + op_depth(*body),
        RelOp::Functional(_, _, _, body) => 1 + op_depth(*body),
        RelOp::Project(_, _) => 0,
        RelOp::If(_, then) => op_depth(*then),
    }
}

/// The value of a RAM term under an environment: literals are themselves,
/// `RowLoad`/`LoadLatVar` read the bindings, `Meet` and the `App`s apply
/// caller-supplied value functions.  A symbolic variable or an out-of-range
/// load is a fatal error.
pub open spec fn spec_eval_term<C: Callables>(c: &C, env: EnvV, term: RamTerm) -> Result<
    ValueV,
    EvalError,
>
    decreases term,
{
    match term {
        RamTerm::Lit(v) => Ok(v@),
        RamTerm::RowLoad(var, idx) => match var {
            RowVar::Index(i) => if 0 <= i < env.0.len() && 0 <= idx < env.0[i as int].len() {
                Ok(env.0[i as int][idx as int])
            } else {
                Err(EvalError::OutOfBounds)
            },
            RowVar::Named(_) => Err(EvalError::UnresolvedVar),
        },
        RamTerm::LoadLatVar(var) => match var {
            RowVar::Index(i) => if 0 <= i < env.1.len() {
                Ok(env.1[i as int])
            } else {
                Err(EvalError::OutOfBounds)
            },
            RowVar::Named(_) => Err(EvalError::UnresolvedVar),
        },
        RamTerm::Meet(f, t1, t2) => match (spec_eval_term(c, env, *t1), spec_eval_term(
            c,
            env,
            *t2,
        )) {
            (Ok(a), Ok(b)) => Ok(c.value_fn(f as int, seq![a, b])),
            (Err(e), _) => Err(e),
            (_, Err(e)) => Err(e),
        },
        RamTerm::App0(f) => Ok(c.value_fn(f as int, Seq::empty())),
        RamTerm::App1(f, t) => match spec_eval_term(c, env, *t) {
            Ok(a) => Ok(c.value_fn(f as int, seq![a])),
            Err(e) => Err(e),
        },
        RamTerm::App2(f, t1, t2) => match (spec_eval_term(c, env, *t1), spec_eval_term(
            c,
            env,
            *t2,
        )) {
            (Ok(a), Ok(b)) => Ok(c.value_fn(f as int, seq![a, b])),
            (Err(e), _) => Err(e),
            (_, Err(e)) => Err(e),
        },
        RamTerm::App3(f, t1, t2, t3) => match (spec_eval_term(c, env, *t1), spec_eval_term(
            c,
            env,
            *t2,
        ), spec_eval_term(c, env, *t3)) {
            (Ok(a), Ok(b), Ok(d)) => Ok(c.value_fn(f as int, seq![a, b, d])),
            (Err(e), _, _) => Err(e),
            (_, Err(e), _) => Err(e),
            (_, _, Err(e)) => Err(e),
        },
        RamTerm::App4(f, t1, t2, t3, t4) => match (spec_eval_term(c, env, *t1), spec_eval_term(
            c,
            env,
            *t2,
        ), spec_eval_term(c, env, *t3), spec_eval_term(c, env, *t4)) {
            (Ok(a), Ok(b), Ok(d), Ok(e4)) => Ok(c.value_fn(f as int, seq![a, b, d, e4])),
            (Err(e), _, _, _) => Err(e),
            (_, Err(e), _, _) => Err(e),
            (_, _, Err(e), _) => Err(e),
            (_, _, _, Err(e)) => Err(e),
        },
        RamTerm::App5(f, t1, t2, t3, t4, t5) => match (spec_eval_term(c, env, *t1), spec_eval_term(
            c,
            env,
            *t2,
        ), spec_eval_term(c, env, *t3), spec_eval_term(c, env, *t4), spec_eval_term(c, env, *t5)) {
            (Ok(a), Ok(b), Ok(d), Ok(e4), Ok(e5)) => Ok(c.value_fn(f as int, seq![a, b, d, e4, e5])),
            (Err(e), _, _, _, _) => Err(e),
            (_, Err(e), _, _, _) => Err(e),
            (_, _, Err(e), _, _) => Err(e),
            (_, _, _, Err(e), _) => Err(e),
            (_, _, _, _, Err(e)) => Err(e),
        },
    }
}

/// The values of a sequence of terms, left to right; the first fatal error
/// wins.
pub open spec fn spec_eval_terms<C: Callables>(c: &C, env: EnvV, terms: Seq<RamTerm>) -> Result<
    Seq<ValueV>,
    EvalError,
>
    decreases terms.len(),
{
    if terms.len() == 0 {
        Ok(Seq::empty())
    } else {
        match spec_eval_terms(c, env, terms.drop_last()) {
            Err(e) => Err(e),
            Ok(pre) => match spec_eval_term(c, env, terms.last()) {
                Err(e) => Err(e),
                Ok(v) => Ok(pre.push(v)),
            },
        }
    }
}

/// A prefix that errs keeps the whole term list erring.
proof fn lemma_eval_terms_err<C: Callables>(c: &C, env: EnvV, terms: Seq<RamTerm>, j: int, e: EvalError)
    requires
        0 <= j <= terms.len(),
        spec_eval_terms(c, env, terms.take(j)) == Err::<Seq<ValueV>, EvalError>(e),
    ensures
        spec_eval_terms(c, env, terms) == Err::<Seq<ValueV>, EvalError>(e),
    decreases terms.len() - j,
{
    if j == terms.len() {
        assert(terms.take(j) =~= terms);
    } else {
        assert(terms.take(j + 1).drop_last() =~= terms.take(j));
        lemma_eval_terms_err(c, env, terms, j + 1, e);
    }
}

/// The truth of one boolean test against the database and environment.
/// `Empty` and `NotMemberOf` treat an absent relation as an empty one; a
/// latticenal membership test compares the tuple's lattice term against the
/// stored value (or bottom) under the lattice's `leq`.
pub open spec fn spec_eval_bool<C: Callables>(c: &C, db: DbV, env: EnvV, e: BoolExp) -> Result<
    bool,
    EvalError,
> {
    match e {
        BoolExp::Empty(sym) => Ok(db_rows_or_empty(db, sym.key()).len() == 0),
        BoolExp::NotMemberOf(terms, sym) => match spec_eval_terms(c, env, terms@) {
            Err(er) => Err(er),
            Ok(vals) => match sym.den() {
                DenotationV::Relational => Ok(
                    rows_lookup(db_rows_or_empty(db, sym.key()), vals) is None,
                ),
                DenotationV::Latticenal(bot, leq, _, _) => if vals.len() == 0 {
                    Err(EvalError::EmptyLatticenal)
                } else {
                    let cur = match rows_lookup(
                        db_rows_or_empty(db, sym.key()),
                        vals.drop_last(),
                    ) {
                        Some(v) => v,
                        None => bot,
                    };
                    Ok(!c.bool_fn(leq, seq![vals.last(), cur]))
                },
            },
        },
        BoolExp::Eq(t1, t2) => match (spec_eval_term(c, env, t1), spec_eval_term(c, env, t2)) {
            (Ok(a), Ok(b)) => Ok(a == b),
            (Err(e1), _) => Err(e1),
            (_, Err(e2)) => Err(e2),
        },
        BoolExp::Leq(f, t1, t2) => match (spec_eval_term(c, env, t1), spec_eval_term(c, env, t2)) {
            (Ok(a), Ok(b)) => Ok(c.bool_fn(f as int, seq![a, b])),
            (Err(e1), _) => Err(e1),
            (_, Err(e2)) => Err(e2),
        },
        BoolExp::Guard0(f) => Ok(c.bool_fn(f as int, Seq::empty())),
        BoolExp::Guard1(f, t1) => match spec_eval_term(c, env, t1) {
            Ok(a) => Ok(c.bool_fn(f as int, seq![a])),
            Err(e1) => Err(e1),
        },
        BoolExp::Guard2(f, t1, t2) => match (spec_eval_term(c, env, t1), spec_eval_term(
            c,
            env,
            t2,
        )) {
            (Ok(a), Ok(b)) => Ok(c.bool_fn(f as int, seq![a, b])),
            (Err(e1), _) => Err(e1),
            (_, Err(e2)) => Err(e2),
        },
        BoolExp::Guard3(f, t1, t2, t3) => match (spec_eval_term(c, env, t1), spec_eval_term(
            c,
            env,
            t2,
        ), spec_eval_term(c, env, t3)) {
            (Ok(a), Ok(b), Ok(d)) => Ok(c.bool_fn(f as int, seq![a, b, d])),
            (Err(e1), _, _) => Err(e1),
            (_, Err(e2), _) => Err(e2),
            (_, _, Err(e3)) => Err(e3),
        },
        BoolExp::Guard4(f, t1, t2, t3, t4) => match (spec_eval_term(c, env, t1), spec_eval_term(
            c,
            env,
            t2,
        ), spec_eval_term(c, env, t3), spec_eval_term(c, env, t4)) {
            (Ok(a), Ok(b), Ok(d), Ok(e4)) => Ok(c.bool_fn(f as int, seq![a, b, d, e4])),
            (Err(e1), _, _, _) => Err(e1),
            (_, Err(e2), _, _) => Err(e2),
            (_, _, Err(e3), _) => Err(e3),
            (_, _, _, Err(e4)) => Err(e4),
        },
        BoolExp::Guard5(f, t1, t2, t3, t4, t5) => match (spec_eval_term(c, env, t1), spec_eval_term(
            c,
            env,
            t2,
        ), spec_eval_term(c, env, t3), spec_eval_term(c, env, t4), spec_eval_term(c, env, t5)) {
            (Ok(a), Ok(b), Ok(d), Ok(e4), Ok(e5)) => Ok(c.bool_fn(f as int, seq![a, b, d, e4, e5])),
            (Err(e1), _, _, _, _) => Err(e1),
            (_, Err(e2), _, _, _) => Err(e2),
            (_, _, Err(e3), _, _) => Err(e3),
            (_, _, _, Err(e4), _) => Err(e4),
            (_, _, _, _, Err(e5)) => Err(e5),
        },
    }
}

/// The conjunction of a list of tests, left to right, stopping at the first
/// false test or fatal error.
pub open spec fn spec_eval_bools<C: Callables>(c: &C, db: DbV, env: EnvV, es: Seq<BoolExp>) -> Result<
    bool,
    EvalError,
>
    decreases es.len(),
{
    if es.len() == 0 {
        Ok(true)
    } else {
        match spec_eval_bool(c, db, env, es[0]) {
            Err(e) => Err(e),
            Ok(false) => Ok(false),
            Ok(true) => spec_eval_bools(c, db, env, es.skip(1)),
        }
    }
}

/// Does the tuple match a prefix query?  Entry by entry: the named tuple
/// position must hold exactly the value of the entry's term; a position
/// outside the tuple is a fatal error.
pub open spec fn spec_query_match<C: Callables>(
    c: &C,
    env: EnvV,
    entries: Seq<(i32, RamTerm)>,
    tuple: Seq<ValueV>,
) -> Result<bool, EvalError>
    decreases entries.len(),
{
    if entries.len() == 0 {
        Ok(true)
    } else if !(0 <= entries[0].0 < tuple.len()) {
        Err(EvalError::OutOfBounds)
    } else {
        match spec_eval_term(c, env, entries[0].1) {
            Err(e) => Err(e),
            Ok(v) => if tuple[entries[0].0 as int] != v {
                Ok(false)
            } else {
                spec_query_match(c, env, entries.skip(1), tuple)
            },
        }
    }
}

/// Project one tuple into a latticenal relation: split off the tuple's
/// final term as the lattice value; a value `leq` the lattice's bottom is
/// discarded, otherwise it is `lub`-merged with the value already stored
/// for the key, or stored directly for a fresh key.
pub open spec fn spec_project_lat<C: Callables>(
    c: &C,
    db: DbV,
    skey: SymKey,
    bot: ValueV,
    leq: int,
    lub: int,
    key: Seq<ValueV>,
    lat: ValueV,
) -> DbV {
    if c.bool_fn(leq, seq![lat, bot]) {
        db
    } else {
        let rows = db_rows_or_empty(db, skey);
        let newv = match rows_lookup(rows, key) {
            None => lat,
            Some(cur) => c.value_fn(lub, seq![cur, lat]),
        };
        db.insert(skey, rows_store(rows, key, newv))
    }
}

/// The result of a relational operation: the database after its effects and
/// the final state of the search environment it scribbled on.
pub open spec fn spec_eval_op<C: Callables>(c: &C, db: DbV, env: EnvV, op: RelOp) -> Result<
    (DbV, EnvV),
    EvalError,
>
    decreases op, 0int,
{
    match op {
        RelOp::Search(var, sym, body) => match var {
            RowVar::Named(_) => Err(EvalError::UnresolvedVar),
            RowVar::Index(i) => if 0 <= i < env.0.len() && i < env.1.len() {
                spec_search_fold(c, db, env, i as int, db_rows_or_empty(db, sym.key()), *body)
            } else {
                Err(EvalError::OutOfBounds)
            },
        },
        RelOp::Query(var, sym, q, body) => match var {
            RowVar::Named(_) => Err(EvalError::UnresolvedVar),
            RowVar::Index(i) => if 0 <= i < env.0.len() && i < env.1.len() {
                spec_query_fold(c, db, env, i as int, db_rows_or_empty(db, sym.key()), q@, *body)
            } else {
                Err(EvalError::OutOfBounds)
            },
        },
        RelOp::Functional(var, f, terms, body) => match var {
            RowVar::Named(_) => Err(EvalError::UnresolvedVar),
            RowVar::Index(i) => if 0 <= i < env.0.len() {
                match spec_eval_terms(c, env, terms@) {
                    Err(e) => Err(e),
                    Ok(args) => spec_func_fold(
                        c,
                        db,
                        env,
                        i as int,
                        c.rows_fn(f as int, args),
                        *body,
                    ),
                }
            } else {
                Err(EvalError::OutOfBounds)
            },
        },
        RelOp::Project(terms, sym) => match spec_eval_terms(c, env, terms@) {
            Err(e) => Err(e),
            Ok(vals) => match sym.den() {
                DenotationV::Relational => Ok(
                    (
                        db.insert(
                            sym.key(),
                            rows_store(
                                db_rows_or_empty(db, sym.key()),
                                vals,
                                ValueV::Bool(false),
                            ),
                        ),
                        env,
                    ),
                ),
                DenotationV::Latticenal(bot, leq, lub, _) => if vals.len() == 0 {
                    Err(EvalError::EmptyLatticenal)
                } else {
                    Ok(
                        (
                            spec_project_lat(
                                c,
                                db,
                                sym.key(),
                                bot,
                                leq,
                                lub,
                                vals.drop_last(),
                                vals.last(),
                            ),
                            env,
                        ),
                    )
                },
            },
        },
        RelOp::If(test, then) => match spec_eval_bools(c, db, env, test@) {
            Err(e) => Err(e),
            Ok(false) => Ok((db, env)),
            Ok(true) => spec_eval_op(c, db, env, *then),
        },
    }
}

/// Iterate the body over every row, binding tuple and lattice value at
/// depth `i` before each pass.
pub open spec fn spec_search_fold<C: Callables>(
    c: &C,
    db: DbV,
    env: EnvV,
    i: int,
    rows: RowsV,
    body: RelOp,
) -> Result<(DbV, EnvV), EvalError>
    decreases body, rows.len() + 1,
{
    if rows.len() == 0 {
        Ok((db, env))
    } else {
        let env1 = (env.0.update(i, rows[0].0), env.1.update(i, rows[0].1));
        match spec_eval_op(c, db, env1, body) {
            Err(e) => Err(e),
            Ok((db2, env2)) => spec_search_fold(c, db2, env2, i, rows.skip(1), body),
        }
    }
}

/// Iterate the body over every row whose tuple matches the prefix query.
pub open spec fn spec_query_fold<C: Callables>(
    c: &C,
    db: DbV,
    env: EnvV,
    i: int,
    rows: RowsV,
    q: Seq<(i32, RamTerm)>,
    body: RelOp,
) -> Result<(DbV, EnvV), EvalError>
    decreases body, rows.len() + 1,
{
    if rows.len() == 0 {
        Ok((db, env))
    } else {
        match spec_query_match(c, env, q, rows[0].0) {
            Err(e) => Err(e),
            Ok(false) => spec_query_fold(c, db, env, i, rows.skip(1), q, body),
            Ok(true) => {
                let env1 = (env.0.update(i, rows[0].0), env.1.update(i, rows[0].1));
                match spec_eval_op(c, db, env1, body) {
                    Err(e) => Err(e),
                    Ok((db2, env2)) => spec_query_fold(c, db2, env2, i, rows.skip(1), q, body),
                }
            },
        }
    }
}

/// Iterate the body over every generated tuple, binding it at depth `i`;
/// the lattice slot is left alone.
pub open spec fn spec_func_fold<C: Callables>(
    c: &C,
    db: DbV,
    env: EnvV,
    i: int,
    rows: Seq<Seq<ValueV>>,
    body: RelOp,
) -> Result<(DbV, EnvV), EvalError>
    decreases body, rows.len() + 1,
{
    if rows.len() == 0 {
        Ok((db, env))
    } else {
        let env1 = (env.0.update(i, rows[0]), env.1);
        match spec_eval_op(c, db, env1, body) {
            Err(e) => Err(e),
            Ok((db2, env2)) => spec_func_fold(c, db2, env2, i, rows.skip(1), body),
        }
    }
}

/// Fold a source relation's rows into a relational destination, tuple by
/// tuple, overwriting stored values: set union of the tuples.
pub open spec fn spec_merge_rel(db: DbV, dst: SymKey, srows: RowsV) -> DbV
    decreases srows.len(),
{
    if srows.len() == 0 {
        db
    } else {
        let db2 = db.insert(dst, rows_store(db_rows_or_empty(db, dst), srows[0].0, srows[0].1));
        spec_merge_rel(db2, dst, srows.skip(1))
    }
}

/// Fold a source relation's rows into a latticenal destination: a key
/// present in both keeps the `lub` of both values, a fresh key is inserted
/// directly.
pub open spec fn spec_merge_lat<C: Callables>(
    c: &C,
    db: DbV,
    dst: SymKey,
    lub: int,
    srows: RowsV,
) -> DbV
    decreases srows.len(),
{
    if srows.len() == 0 {
        db
    } else {
        let drows = db_rows_or_empty(db, dst);
        let newv = match rows_lookup(drows, srows[0].0) {
            None => srows[0].1,
            Some(cur) => c.value_fn(lub, seq![cur, srows[0].1]),
        };
        spec_merge_lat(
            c,
            db.insert(dst, rows_store(drows, srows[0].0, newv)),
            dst,
            lub,
            srows.skip(1),
        )
    }
}

/// What a statement evaluation comes to under a recursion budget for the
/// fixpoint driver: a final database, a fatal error, or the budget ran out
/// before the driver reached its fixpoint.
pub enum StepRes {
    Done(DbV),
    Fail(EvalError),
    Pending,
}

/// The meaning of one RAM statement.  `fuel` bounds only the `Until`
/// driver's recursion: every other statement ignores it.
pub open spec fn spec_eval_stmt<C: Callables>(c: &C, db: DbV, stmt: RamStmt, fuel: nat) -> StepRes
    decreases fuel, stmt, 0int,
{
    match stmt {
        RamStmt::Insert(op) => if op_depth(op) > usize::MAX as nat {
            StepRes::Fail(EvalError::OutOfBounds)
        } else {
            match spec_eval_op(c, db, empty_env(op_depth(op)), op) {
                Ok((db2, _)) => StepRes::Done(db2),
                Err(e) => StepRes::Fail(e),
            }
        },
        RamStmt::Merge(src, dst) => {
            let srows = db_rows_or_empty(db, src.key());
            match src.den() {
                DenotationV::Relational => StepRes::Done(spec_merge_rel(db, dst.key(), srows)),
                DenotationV::Latticenal(_, _, lub, _) => StepRes::Done(
                    spec_merge_lat(c, db, dst.key(), lub, srows),
                ),
            }
        },
        RamStmt::Assign(lhs, rhs) => StepRes::Done(
            db.insert(lhs.key(), db_rows_or_empty(db, rhs.key())),
        ),
        RamStmt::Purge(sym) => StepRes::Done(db.remove(sym.key())),
        RamStmt::Sequence(stmts) => spec_eval_seq(c, db, stmts@, stmts@.len() as int, fuel),
        RamStmt::Until(test, body) => spec_until(c, db, test@, *body, fuel),
        RamStmt::Comment(_) => StepRes::Done(db),
    }
}

/// The meaning of the fixpoint driver: when the tests hold the database is
/// final; otherwise run the body once and ask again, spending one unit of
/// fuel per pass.
pub open spec fn spec_until<C: Callables>(
    c: &C,
    db: DbV,
    test: Seq<BoolExp>,
    body: RamStmt,
    fuel: nat,
) -> StepRes
    decreases fuel, body, 1int,
{
    match spec_eval_bools(c, db, empty_env(0), test) {
        Err(e) => StepRes::Fail(e),
        Ok(true) => StepRes::Done(db),
        Ok(false) => if fuel == 0 {
            StepRes::Pending
        } else {
            match spec_eval_stmt(c, db, body, fuel) {
                StepRes::Done(db2) => spec_until(c, db2, test, body, (fuel - 1) as nat),
                r => r,
            }
        },
    }
}

/// The meaning of the first `i` statements of a sequence, run in order.
pub open spec fn spec_eval_seq<C: Callables>(
    c: &C,
    db: DbV,
    stmts: Seq<RamStmt>,
    i: int,
    fuel: nat,
) -> StepRes
    decreases fuel, stmts, i,
{
    if i <= 0 {
        StepRes::Done(db)
    } else if i > stmts.len() {
        StepRes::Done(db)
    } else {
        match spec_eval_seq(c, db, stmts, i - 1, fuel) {
            StepRes::Done(d) => spec_eval_stmt(c, d, stmts[i - 1], fuel),
            r => r,
        }
    }
}

/// More fuel never changes a result the driver already reached.
proof fn lemma_fuel_mono<C: Callables>(c: &C, db: DbV, stmt: RamStmt, f1: nat, f2: nat)
    requires
        f1 <= f2,
        spec_eval_stmt(c, db, stmt, f1) != StepRes::Pending,
    ensures
        spec_eval_stmt(c, db, stmt, f2) == spec_eval_stmt(c, db, stmt, f1),
    decreases f1, stmt, 0int,
{
    match stmt {
        RamStmt::Sequence(xs) => {
            lemma_fuel_mono_seq(c, db, xs@, xs@.len() as int, f1, f2);
        },
        RamStmt::Until(test, body) => {
            lemma_fuel_mono_until(c, db, test@, *body, f1, f2);
        },
        _ => {},
    }
}

/// More fuel never changes a result the driver already reached.
proof fn lemma_fuel_mono_until<C: Callables>(
    c: &C,
    db: DbV,
    test: Seq<BoolExp>,
    body: RamStmt,
    f1: nat,
    f2: nat,
)
    requires
        f1 <= f2,
        spec_until(c, db, test, body, f1) != StepRes::Pending,
    ensures
        spec_until(c, db, test, body, f2) == spec_until(c, db, test, body, f1),
    decreases f1, body, 1int,
{
    match spec_eval_bools(c, db, empty_env(0), test) {
        Ok(b) => {
            if !b {
                match spec_eval_stmt(c, db, body, f1) {
                    StepRes::Done(db2) => {
                        lemma_fuel_mono(c, db, body, f1, f2);
                        lemma_fuel_mono_until(c, db2, test, body, (f1 - 1) as nat, (f2 - 1) as nat);
                    },
                    StepRes::Fail(_) => {
                        lemma_fuel_mono(c, db, body, f1, f2);
                    },
                    StepRes::Pending => {},
                }
            }
        },
        Err(_) => {},
    }
}

/// `db1` is a state the driver's passes can reach from `db0`: any outcome
/// the driver reaches from `db1` it also reaches from `db0`, under some
/// fuel.
#[verifier::opaque]
pub open spec fn until_reaches<C: Callables>(
    c: &C,
    db0: DbV,
    db1: DbV,
    test: Seq<BoolExp>,
    body: RamStmt,
) -> bool {
    forall|f: nat|
        (#[trigger] spec_until(c, db1, test, body, f)) != StepRes::Pending ==> exists|g: nat|
            spec_until(c, db0, test, body, g) == spec_until(c, db1, test, body, f)
}

/// The driver's start state reaches itself.
proof fn lemma_until_reaches_refl<C: Callables>(c: &C, db: DbV, test: Seq<BoolExp>, body: RamStmt)
    ensures
        until_reaches(c, db, db, test, body),
{
    reveal(until_reaches);
    assert forall|f: nat| (#[trigger] spec_until(c, db, test, body, f)) != StepRes::Pending
        implies exists|g: nat|
        spec_until(c, db, test, body, g) == spec_until(c, db, test, body, f) by {
        assert(spec_until(c, db, test, body, f) == spec_until(c, db, test, body, f));
    }
}

/// One more pass of the driver stays reachable: from a state whose tests
/// fail, running the body once reaches the next state.
proof fn lemma_until_reaches_step<C: Callables>(
    c: &C,
    db0: DbV,
    db1: DbV,
    db2: DbV,
    test: Seq<BoolExp>,
    body: RamStmt,
    f_b: nat,
)
    requires
        until_reaches(c, db0, db1, test, body),
        spec_eval_bools(c, db1, empty_env(0), test) == Ok::<bool, EvalError>(false),
        spec_eval_stmt(c, db1, body, f_b) == StepRes::Done(db2),
    ensures
        until_reaches(c, db0, db2, test, body),
{
    reveal(until_reaches);
    assert forall|f: nat| (#[trigger] spec_until(c, db2, test, body, f)) != StepRes::Pending
        implies exists|g: nat|
        spec_until(c, db0, test, body, g) == spec_until(c, db2, test, body, f) by {
        let fmax: nat = if f_b <= f {
            f
        } else {
            f_b
        };
        lemma_fuel_mono(c, db1, body, f_b, fmax + 1);
        lemma_fuel_mono_until(c, db2, test, body, f, fmax);
        assert(spec_until(c, db1, test, body, fmax + 1) == spec_until(c, db2, test, body, f));
    }
}

/// Any outcome the driver reaches from a reachable state it reaches from
/// the start state, under some fuel.
proof fn lemma_until_reaches_result<C: Callables>(
    c: &C,
    db0: DbV,
    db1: DbV,
    test: Seq<BoolExp>,
    body: RamStmt,
    f: nat,
)
    requires
        until_reaches(c, db0, db1, test, body),
        spec_until(c, db1, test, body, f) != StepRes::Pending,
    ensures
        exists|g: nat|
            spec_until(c, db0, test, body, g) == spec_until(c, db1, test, body, f),
{
    reveal(until_reaches);
}

/// More fuel never changes a sequence prefix's reached result.
proof fn lemma_fuel_mono_seq<C: Callables>(
    c: &C,
    db: DbV,
    stmts: Seq<RamStmt>,
    i: int,
    f1: nat,
    f2: nat,
)
    requires
        f1 <= f2,
        spec_eval_seq(c, db, stmts, i, f1) != StepRes::Pending,
    ensures
        spec_eval_seq(c, db, stmts, i, f2) == spec_eval_seq(c, db, stmts, i, f1),
    decreases f1, stmts, i,
{
    if 0 < i <= stmts.len() {
        match spec_eval_seq(c, db, stmts, i - 1, f1) {
            StepRes::Done(d) => {
                lemma_fuel_mono_seq(c, db, stmts, i - 1, f1, f2);
                lemma_fuel_mono(c, d, stmts[i - 1], f1, f2);
            },
            StepRes::Fail(_) => {
                lemma_fuel_mono_seq(c, db, stmts, i - 1, f1, f2);
            },
            StepRes::Pending => {},
        }
    }
}

/// A failed sequence prefix fails the whole sequence.
proof fn lemma_seq_fail_extends<C: Callables>(
    c: &C,
    db: DbV,
    stmts: Seq<RamStmt>,
    i: int,
    j: int,
    fuel: nat,
)
    requires
        0 <= i <= j <= stmts.len(),
        spec_eval_seq(c, db, stmts, i, fuel) is Fail,
    ensures
        spec_eval_seq(c, db, stmts, j, fuel) == spec_eval_seq(c, db, stmts, i, fuel),
    decreases j - i,
{
    if j > i {
        lemma_seq_fail_extends(c, db, stmts, i, j - 1, fuel);
    }
}

/// A pending sequence prefix keeps the whole sequence pending.
proof fn lemma_seq_pending_extends<C: Callables>(
    c: &C,
    db: DbV,
    stmts: Seq<RamStmt>,
    i: int,
    j: int,
    fuel: nat,
)
    requires
        0 <= i <= j <= stmts.len(),
        spec_eval_seq(c, db, stmts, i, fuel) is Pending,
    ensures
        spec_eval_seq(c, db, stmts, j, fuel) == spec_eval_seq(c, db, stmts, i, fuel),
    decreases j - i,
{
    if j > i {
        lemma_seq_pending_extends(c, db, stmts, i, j - 1, fuel);
    }
}

/// An outcome still pending at some fuel is pending at every smaller fuel.
proof fn lemma_pending_down<C: Callables>(c: &C, db: DbV, stmt: RamStmt, f1: nat, f2: nat)
    requires
        f1 <= f2,
        spec_eval_stmt(c, db, stmt, f2) == StepRes::Pending,
    ensures
        spec_eval_stmt(c, db, stmt, f1) == StepRes::Pending,
{
    if spec_eval_stmt(c, db, stmt, f1) != StepRes::Pending {
        lemma_fuel_mono(c, db, stmt, f1, f2);
    }
}

/// A driver still pending at some fuel is pending at every smaller fuel.
proof fn lemma_pending_down_until<C: Callables>(
    c: &C,
    db: DbV,
    test: Seq<BoolExp>,
    body: RamStmt,
    f1: nat,
    f2: nat,
)
    requires
        f1 <= f2,
        spec_until(c, db, test, body, f2) == StepRes::Pending,
    ensures
        spec_until(c, db, test, body, f1) == StepRes::Pending,
{
    if spec_until(c, db, test, body, f1) != StepRes::Pending {
        lemma_fuel_mono_until(c, db, test, body, f1, f2);
    }
}

/// `db1` is a state the driver's passes reach from `db0` in `k` passes, all
/// of whose tests failed: any pending outcome at `db1` is pending from
/// `db0` under `k` more units of fuel.
#[verifier::opaque]
spec fn until_pends<C: Callables>(
    c: &C,
    db0: DbV,
    db1: DbV,
    test: Seq<BoolExp>,
    body: RamStmt,
    k: nat,
) -> bool {
    forall|f: nat|
        (#[trigger] spec_until(c, db1, test, body, f)) == StepRes::Pending ==> spec_until(
            c,
            db0,
            test,
            body,
            (f + k) as nat,
        ) == StepRes::Pending
}

proof fn lemma_until_pends_refl<C: Callables>(c: &C, db: DbV, test: Seq<BoolExp>, body: RamStmt)
    ensures
        until_pends(c, db, db, test, body, 0),
{
    reveal(until_pends);
    assert forall|f: nat| (#[trigger] spec_until(c, db, test, body, f)) == StepRes::Pending
        implies spec_until(c, db, test, body, (f + 0) as nat) == StepRes::Pending by {
        assert((f + 0) as nat == f);
    }
}

proof fn lemma_until_pends_step<C: Callables>(
    c: &C,
    db0: DbV,
    db1: DbV,
    db2: DbV,
    test: Seq<BoolExp>,
    body: RamStmt,
    k: nat,
    f_b: nat,
)
    requires
        until_pends(c, db0, db1, test, body, k),
        spec_eval_bools(c, db1, empty_env(0), test) == Ok::<bool, EvalError>(false),
        spec_eval_stmt(c, db1, body, f_b) == StepRes::Done(db2),
    ensures
        until_pends(c, db0, db2, test, body, (k + 1) as nat),
{
    reveal(until_pends);
    assert forall|f: nat| (#[trigger] spec_until(c, db2, test, body, f)) == StepRes::Pending
        implies spec_until(c, db0, test, body, (f + (k + 1)) as nat) == StepRes::Pending by {
        if spec_eval_stmt(c, db1, body, (f + 1) as nat) == StepRes::Pending {
            assert(spec_until(c, db1, test, body, (f + 1) as nat) == StepRes::Pending);
        } else {
            lemma_interpret_deterministic(c, db1, body, f_b, (f + 1) as nat);
            assert(spec_until(c, db1, test, body, (f + 1) as nat) == spec_until(
                c,
                db2,
                test,
                body,
                f,
            ));
        }
        assert(spec_until(c, db0, test, body, ((f + 1) + k) as nat) == StepRes::Pending);
        assert((f + 1) + k == f + (k + 1));
    }
}

/// The first `i` statements of a sequence run to completion, ending at
/// `mid`.
pub open spec fn seq_prefix_done<C: Callables>(
    c: &C,
    db0: DbV,
    xs: Seq<RamStmt>,
    i: int,
    f: nat,
    mid: DbV,
) -> bool {
    spec_eval_seq(c, db0, xs, i, f) == StepRes::Done(mid)
}

/// A database state an interrupted run of `stmt` can leave behind when a
/// fixpoint driver hits its pass bound: the partial work sits inside the
/// driver whose bound was hit, below any number of completed driver passes
/// and finished sequence prefixes.  Only statements that contain a driver
/// can be interrupted.
pub open spec fn spec_interrupted<C: Callables>(c: &C, db0: DbV, db1: DbV, stmt: RamStmt) -> bool
    decreases stmt,
{
    match stmt {
        RamStmt::Sequence(xs) => exists|i: int, f: nat, mid: DbV|
            #![trigger seq_prefix_done(c, db0, xs@, i, f, mid)]
            0 <= i < xs@.len() && seq_prefix_done(c, db0, xs@, i, f, mid) && spec_interrupted(
                c,
                mid,
                db1,
                xs@[i],
            ),
        RamStmt::Until(test, body) => exists|mid: DbV|
            #[trigger] until_reaches(c, db0, mid, test@, *body) && (db1 == mid || spec_interrupted(
                c,
                mid,
                db1,
                *body,
            )),
        _ => false,
    }
}

/// Determinism of the interpreter: any two results the fixpoint driver
/// actually reaches for the same callables, database and statement are the
/// same, whatever recursion budgets witnessed them.  In particular two
/// successful runs of `interpret` on one program return equal databases.
pub proof fn lemma_interpret_deterministic<C: Callables>(
    c: &C,
    db: DbV,
    stmt: RamStmt,
    f1: nat,
    f2: nat,
)
    requires
        spec_eval_stmt(c, db, stmt, f1) != StepRes::Pending,
        spec_eval_stmt(c, db, stmt, f2) != StepRes::Pending,
    ensures
        spec_eval_stmt(c, db, stmt, f1) == spec_eval_stmt(c, db, stmt, f2),
{
    if f1 <= f2 {
        lemma_fuel_mono(c, db, stmt, f1, f2);
    } else {
        lemma_fuel_mono(c, db, stmt, f2, f1);
    }
}

/// The iteration limit is the driver's error alone: term evaluation fails
/// only on malformed loads.
proof fn lemma_term_err_kind<C: Callables>(c: &C, env: EnvV, term: RamTerm)
    ensures
        match spec_eval_term(c, env, term) {
            Err(e) => e != EvalError::IterationLimit,
            Ok(_) => true,
        },
    decreases term,
{
    match term {
        RamTerm::Meet(_, t1, t2) => {
            lemma_term_err_kind(c, env, *t1);
            lemma_term_err_kind(c, env, *t2);
        },
        RamTerm::App1(_, t1) => {
            lemma_term_err_kind(c, env, *t1);
        },
        RamTerm::App2(_, t1, t2) => {
            lemma_term_err_kind(c, env, *t1);
            lemma_term_err_kind(c, env, *t2);
        },
        RamTerm::App3(_, t1, t2, t3) => {
            lemma_term_err_kind(c, env, *t1);
            lemma_term_err_kind(c, env, *t2);
            lemma_term_err_kind(c, env, *t3);
        },
        RamTerm::App4(_, t1, t2, t3, t4) => {
            lemma_term_err_kind(c, env, *t1);
            lemma_term_err_kind(c, env, *t2);
            lemma_term_err_kind(c, env, *t3);
            lemma_term_err_kind(c, env, *t4);
        },
        RamTerm::App5(_, t1, t2, t3, t4, t5) => {
            lemma_term_err_kind(c, env, *t1);
            lemma_term_err_kind(c, env, *t2);
            lemma_term_err_kind(c, env, *t3);
            lemma_term_err_kind(c, env, *t4);
            lemma_term_err_kind(c, env, *t5);
        },
        _ => {},
    }
}

proof fn lemma_terms_err_kind<C: Callables>(c: &C, env: EnvV, terms: Seq<RamTerm>)
    ensures
        match spec_eval_terms(c, env, terms) {
            Err(e) => e != EvalError::IterationLimit,
            Ok(_) => true,
        },
    decreases terms.len(),
{
    if terms.len() > 0 {
        lemma_terms_err_kind(c, env, terms.drop_last());
        lemma_term_err_kind(c, env, terms.last());
    }
}

proof fn lemma_bool_err_kind<C: Callables>(c: &C, db: DbV, env: EnvV, e: BoolExp)
    ensures
        match spec_eval_bool(c, db, env, e) {
            Err(er) => er != EvalError::IterationLimit,
            Ok(_) => true,
        },
{
    match e {
        BoolExp::NotMemberOf(ts, _) => {
            lemma_terms_err_kind(c, env, ts@);
        },
        BoolExp::Eq(t1, t2) => {
            lemma_term_err_kind(c, env, t1);
            lemma_term_err_kind(c, env, t2);
        },
        BoolExp::Leq(_, t1, t2) => {
            lemma_term_err_kind(c, env, t1);
            lemma_term_err_kind(c, env, t2);
        },
        BoolExp::Guard1(_, t1) => {
            lemma_term_err_kind(c, env, t1);
        },
        BoolExp::Guard2(_, t1, t2) => {
            lemma_term_err_kind(c, env, t1);
            lemma_term_err_kind(c, env, t2);
        },
        BoolExp::Guard3(_, t1, t2, t3) => {
            lemma_term_err_kind(c, env, t1);
            lemma_term_err_kind(c, env, t2);
            lemma_term_err_kind(c, env, t3);
        },
        BoolExp::Guard4(_, t1, t2, t3, t4) => {
            lemma_term_err_kind(c, env, t1);
            lemma_term_err_kind(c, env, t2);
            lemma_term_err_kind(c, env, t3);
            lemma_term_err_kind(c, env, t4);
        },
        BoolExp::Guard5(_, t1, t2, t3, t4, t5) => {
            lemma_term_err_kind(c, env, t1);
            lemma_term_err_kind(c, env, t2);
            lemma_term_err_kind(c, env, t3);
            lemma_term_err_kind(c, env, t4);
            lemma_term_err_kind(c, env, t5);
        },
        _ => {},
    }
}

proof fn lemma_bools_err_kind<C: Callables>(c: &C, db: DbV, env: EnvV, es: Seq<BoolExp>)
    ensures
        match spec_eval_bools(c, db, env, es) {
            Err(er) => er != EvalError::IterationLimit,
            Ok(_) => true,
        },
    decreases es.len(),
{
    if es.len() > 0 {
        lemma_bool_err_kind(c, db, env, es[0]);
        lemma_bools_err_kind(c, db, env, es.skip(1));
    }
}

proof fn lemma_qmatch_err_kind<C: Callables>(
    c: &C,
    env: EnvV,
    entries: Seq<(i32, RamTerm)>,
    tuple: Seq<ValueV>,
)
    ensures
        match spec_query_match(c, env, entries, tuple) {
            Err(er) => er != EvalError::IterationLimit,
            Ok(_) => true,
        },
    decreases entries.len(),
{
    if entries.len() > 0 {
        lemma_term_err_kind(c, env, entries[0].1);
        lemma_qmatch_err_kind(c, env, entries.skip(1), tuple);
    }
}

proof fn lemma_op_err_kind<C: Callables>(c: &C, db: DbV, env: EnvV, op: RelOp)
    ensures
        match spec_eval_op(c, db, env, op) {
            Err(er) => er != EvalError::IterationLimit,
            Ok(_) => true,
        },
    decreases op, 0int,
{
    match op {
        RelOp::Search(var, sym, body) => {
            if var is Index {
                let i = var->Index_0;
                if 0 <= i < env.0.len() && i < env.1.len() {
                    lemma_search_fold_err_kind(
                        c,
                        db,
                        env,
                        i as int,
                        db_rows_or_empty(db, sym.key()),
                        *body,
                    );
                }
            }
        },
        RelOp::Query(var, sym, q, body) => {
            if var is Index {
                let i = var->Index_0;
                if 0 <= i < env.0.len() && i < env.1.len() {
                    lemma_query_fold_err_kind(
                        c,
                        db,
                        env,
                        i as int,
                        db_rows_or_empty(db, sym.key()),
                        q@,
                        *body,
                    );
                }
            }
        },
        RelOp::Functional(var, f, terms, body) => {
            lemma_terms_err_kind(c, env, terms@);
            if var is Index {
                let i = var->Index_0;
                if 0 <= i < env.0.len() {
                    match spec_eval_terms(c, env, terms@) {
                        Ok(args) => {
                            lemma_func_fold_err_kind(
                                c,
                                db,
                                env,
                                i as int,
                                c.rows_fn(f as int, args),
                                *body,
                            );
                        },
                        Err(_) => {},
                    }
                }
            }
        },
        RelOp::Project(terms, _) => {
            lemma_terms_err_kind(c, env, terms@);
        },
        RelOp::If(test, then) => {
            lemma_bools_err_kind(c, db, env, test@);
            lemma_op_err_kind(c, db, env, *then);
        },
    }
}

proof fn lemma_search_fold_err_kind<C: Callables>(
    c: &C,
    db: DbV,
    env: EnvV,
    i: int,
    rows: RowsV,
    body: RelOp,
)
    ensures
        match spec_search_fold(c, db, env, i, rows, body) {
            Err(er) => er != EvalError::IterationLimit,
            Ok(_) => true,
        },
    decreases body, rows.len() + 1,
{
    if rows.len() > 0 {
        let env1 = (env.0.update(i, rows[0].0), env.1.update(i, rows[0].1));
        lemma_op_err_kind(c, db, env1, body);
        match spec_eval_op(c, db, env1, body) {
            Ok((db2, env2)) => {
                lemma_search_fold_err_kind(c, db2, env2, i, rows.skip(1), body);
            },
            Err(_) => {},
        }
    }
}

proof fn lemma_query_fold_err_kind<C: Callables>(
    c: &C,
    db: DbV,
    env: EnvV,
    i: int,
    rows: RowsV,
    q: Seq<(i32, RamTerm)>,
    body: RelOp,
)
    ensures
        match spec_query_fold(c, db, env, i, rows, q, body) {
            Err(er) => er != EvalError::IterationLimit,
            Ok(_) => true,
        },
    decreases body, rows.len() + 1,
{
    if rows.len() > 0 {
        lemma_qmatch_err_kind(c, env, q, rows[0].0);
        match spec_query_match(c, env, q, rows[0].0) {
            Ok(false) => {
                lemma_query_fold_err_kind(c, db, env, i, rows.skip(1), q, body);
            },
            Ok(true) => {
                let env1 = (env.0.update(i, rows[0].0), env.1.update(i, rows[0].1));
                lemma_op_err_kind(c, db, env1, body);
                match spec_eval_op(c, db, env1, body) {
                    Ok((db2, env2)) => {
                        lemma_query_fold_err_kind(c, db2, env2, i, rows.skip(1), q, body);
                    },
                    Err(_) => {},
                }
            },
            Err(_) => {},
        }
    }
}

proof fn lemma_func_fold_err_kind<C: Callables>(
    c: &C,
    db: DbV,
    env: EnvV,
    i: int,
    rows: Seq<Seq<ValueV>>,
    body: RelOp,
)
    ensures
        match spec_func_fold(c, db, env, i, rows, body) {
            Err(er) => er != EvalError::IterationLimit,
            Ok(_) => true,
        },
    decreases body, rows.len() + 1,
{
    if rows.len() > 0 {
        let env1 = (env.0.update(i, rows[0]), env.1);
        lemma_op_err_kind(c, db, env1, body);
        match spec_eval_op(c, db, env1, body) {
            Ok((db2, env2)) => {
                lemma_func_fold_err_kind(c, db2, env2, i, rows.skip(1), body);
            },
            Err(_) => {},
        }
    }
}

/// Evaluate one RAM term against the environment.
pub fn eval_term<C: Callables>(c: &C, env: &SearchEnv, term: &RamTerm) -> (r: Result<
    Value,
    EvalError,
>)
    ensures
        match r {
            Ok(v) => spec_eval_term(c, env@, *term) == Ok::<ValueV, EvalError>(v@),
            Err(e) => spec_eval_term(c, env@, *term) == Err::<ValueV, EvalError>(e),
        },
    decreases *term,
{
    match term {
        RamTerm::Lit(v) => Ok(v.clone()),
        RamTerm::RowLoad(var, idx) => match var {
            RowVar::Index(i) => {
                if *i < 0 {
                    return Err(EvalError::OutOfBounds);
                }
                let iu = *i as usize;
                if iu >= env.depth() {
                    return Err(EvalError::OutOfBounds);
                }
                if *idx < 0 {
                    return Err(EvalError::OutOfBounds);
                }
                let ju = *idx as usize;
                if ju >= env.tuple_len(iu) {
                    return Err(EvalError::OutOfBounds);
                }
                Ok(env.get_tuple_var(iu, ju).clone())
            },
            RowVar::Named(_) => Err(EvalError::UnresolvedVar),
        },
        RamTerm::LoadLatVar(var) => match var {
            RowVar::Index(i) => {
                if *i < 0 {
                    return Err(EvalError::OutOfBounds);
                }
                let iu = *i as usize;
                if iu >= env.lat_depth() {
                    return Err(EvalError::OutOfBounds);
                }
                Ok(env.get_lat_var(iu).clone())
            },
            RowVar::Named(_) => Err(EvalError::UnresolvedVar),
        },
        RamTerm::Meet(f, t1, t2) => {
            let v1 = eval_term(c, env, t1)?;
            let v2 = eval_term(c, env, t2)?;
            let mut args: Vec<Value> = Vec::new();
            args.push(v1);
            args.push(v2);
            let r = c.call_value(*f, &args);
            proof {
                assert(args.deep_view() =~= seq![args@[0]@, args@[1]@]);
            }
            Ok(r)
        },
        RamTerm::App0(f) => {
            let args: Vec<Value> = Vec::new();
            let r = c.call_value(*f, &args);
            proof {
                assert(args.deep_view() =~= Seq::<ValueV>::empty());
            }
            Ok(r)
        },
        RamTerm::App1(f, t) => {
            let v1 = eval_term(c, env, t)?;
            let mut args: Vec<Value> = Vec::new();
            args.push(v1);
            let r = c.call_value(*f, &args);
            proof {
                assert(args.deep_view() =~= seq![args@[0]@]);
            }
            Ok(r)
        },
        RamTerm::App2(f, t1, t2) => {
            let v1 = eval_term(c, env, t1)?;
            let v2 = eval_term(c, env, t2)?;
            let mut args: Vec<Value> = Vec::new();
            args.push(v1);
            args.push(v2);
            let r = c.call_value(*f, &args);
            proof {
                assert(args.deep_view() =~= seq![args@[0]@, args@[1]@]);
            }
            Ok(r)
        },
        RamTerm::App3(f, t1, t2, t3) => {
            let v1 = eval_term(c, env, t1)?;
            let v2 = eval_term(c, env, t2)?;
            let v3 = eval_term(c, env, t3)?;
            let mut args: Vec<Value> = Vec::new();
            args.push(v1);
            args.push(v2);
            args.push(v3);
            let r = c.call_value(*f, &args);
            proof {
                assert(args.deep_view() =~= seq![args@[0]@, args@[1]@, args@[2]@]);
            }
            Ok(r)
        },
        RamTerm::App4(f, t1, t2, t3, t4) => {
            let v1 = eval_term(c, env, t1)?;
            let v2 = eval_term(c, env, t2)?;
            let v3 = eval_term(c, env, t3)?;
            let v4 = eval_term(c, env, t4)?;
            let mut args: Vec<Value> = Vec::new();
            args.push(v1);
            args.push(v2);
            args.push(v3);
            args.push(v4);
            let r = c.call_value(*f, &args);
            proof {
                assert(args.deep_view() =~= seq![args@[0]@, args@[1]@, args@[2]@, args@[3]@]);
            }
            Ok(r)
        },
        RamTerm::App5(f, t1, t2, t3, t4, t5) => {
            let v1 = eval_term(c, env, t1)?;
            let v2 = eval_term(c, env, t2)?;
            let v3 = eval_term(c, env, t3)?;
            let v4 = eval_term(c, env, t4)?;
            let v5 = eval_term(c, env, t5)?;
            let mut args: Vec<Value> = Vec::new();
            args.push(v1);
            args.push(v2);
            args.push(v3);
            args.push(v4);
            args.push(v5);
            let r = c.call_value(*f, &args);
            proof {
                assert(args.deep_view() =~= seq![
                    args@[0]@,
                    args@[1]@,
                    args@[2]@,
                    args@[3]@,
                    args@[4]@,
                ]);
            }
            Ok(r)
        },
    }
}

/// Evaluate a vector of RAM terms, left to right.
pub fn eval_terms<C: Callables>(c: &C, env: &SearchEnv, terms: &Vec<RamTerm>) -> (r: Result<
    Vec<Value>,
    EvalError,
>)
    ensures
        match r {
            Ok(vals) => spec_eval_terms(c, env@, terms@) == Ok::<Seq<ValueV>, EvalError>(
                vals.deep_view(),
            ),
            Err(e) => spec_eval_terms(c, env@, terms@) == Err::<Seq<ValueV>, EvalError>(e),
        },
{
    let mut vals: Vec<Value> = Vec::new();
    let mut i: usize = 0;
    proof {
        assert(terms@.take(0) =~= Seq::<RamTerm>::empty());
        assert(vals.deep_view() =~= Seq::<ValueV>::empty());
    }
    while i < terms.len()
        invariant
            0 <= i <= terms@.len(),
            spec_eval_terms(c, env@, terms@.take(i as int)) == Ok::<Seq<ValueV>, EvalError>(
                vals.deep_view(),
            ),
        decreases terms@.len() - i,
    {
        let ghost pre = vals.deep_view();
        match eval_term(c, env, &terms[i]) {
            Ok(v) => {
                vals.push(v);
                proof {
                    assert(terms@.take(i as int + 1).drop_last() =~= terms@.take(i as int));
                    assert(terms@.take(i as int + 1).last() == terms@[i as int]);
                    assert(vals.deep_view() =~= pre.push(vals.deep_view().last()));
                }
            },
            Err(e) => {
                proof {
                    assert(terms@.take(i as int + 1).drop_last() =~= terms@.take(i as int));
                    assert(terms@.take(i as int + 1).last() == terms@[i as int]);
                    lemma_eval_terms_err(c, env@, terms@, i as int + 1, e);
                }
                return Err(e);
            },
        }
        i = i + 1;
    }
    proof {
        assert(terms@.take(terms@.len() as int) =~= terms@);
    }
    Ok(vals)
}

/// Evaluate one boolean test.
pub fn eval_bool_exp<C: Callables>(c: &C, db: &Database, env: &SearchEnv, exp: &BoolExp) -> (r:
    Result<bool, EvalError>)
    ensures
        match r {
            Ok(b) => spec_eval_bool(c, db@, env@, *exp) == Ok::<bool, EvalError>(b),
            Err(e) => spec_eval_bool(c, db@, env@, *exp) == Err::<bool, EvalError>(e),
        },
{
    match exp {
        BoolExp::Empty(sym) => Ok(db.rel_is_empty(sym)),
        BoolExp::NotMemberOf(terms, sym) => {
            let vals = eval_terms(c, env, terms)?;
            let ghost vals_dv = vals.deep_view();
            match crate::ram::into_denotation(sym) {
                crate::shared::Denotation::Relational => {
                    match db.rel_get(sym, &vals) {
                        Some(_) => Ok(false),
                        None => Ok(true),
                    }
                },
                crate::shared::Denotation::Latticenal(bot, leq, _, _) => {
                    if vals.len() == 0 {
                        return Err(EvalError::EmptyLatticenal);
                    }
                    let mut key = vals;
                    let lat = match key.pop() {
                        Some(v) => v,
                        None => Value::Bool(false),
                    };
                    proof {
                        assert(key.deep_view() =~= vals_dv.drop_last());
                        assert(lat@ == vals_dv.last());
                    }
                    let cur = match db.rel_get(sym, &key) {
                        Some(v) => v.clone(),
                        None => bot.clone(),
                    };
                    let mut args: Vec<Value> = Vec::new();
                    args.push(lat);
                    args.push(cur);
                    let holds = c.call_bool(*leq, &args);
                    proof {
                        assert(args.deep_view() =~= seq![args@[0]@, args@[1]@]);
                    }
                    Ok(!holds)
                },
            }
        },
        BoolExp::Eq(t1, t2) => {
            let v1 = eval_term(c, env, t1)?;
            let v2 = eval_term(c, env, t2)?;
            Ok(v1.eq_value(&v2))
        },
        BoolExp::Leq(f, t1, t2) => {
            let v1 = eval_term(c, env, t1)?;
            let v2 = eval_term(c, env, t2)?;
            let mut args: Vec<Value> = Vec::new();
            args.push(v1);
            args.push(v2);
            let r = c.call_bool(*f, &args);
            proof {
                assert(args.deep_view() =~= seq![args@[0]@, args@[1]@]);
            }
            Ok(r)
        },
        BoolExp::Guard0(f) => {
            let args: Vec<Value> = Vec::new();
            let r = c.call_bool(*f, &args);
            proof {
                assert(args.deep_view() =~= Seq::<ValueV>::empty());
            }
            Ok(r)
        },
        BoolExp::Guard1(f, t1) => {
            let v1 = eval_term(c, env, t1)?;
            let mut args: Vec<Value> = Vec::new();
            args.push(v1);
            let r = c.call_bool(*f, &args);
            proof {
                assert(args.deep_view() =~= seq![args@[0]@]);
            }
            Ok(r)
        },
        BoolExp::Guard2(f, t1, t2) => {
            let v1 = eval_term(c, env, t1)?;
            let v2 = eval_term(c, env, t2)?;
            let mut args: Vec<Value> = Vec::new();
            args.push(v1);
            args.push(v2);
            let r = c.call_bool(*f, &args);
            proof {
                assert(args.deep_view() =~= seq![args@[0]@, args@[1]@]);
            }
            Ok(r)
        },
        BoolExp::Guard3(f, t1, t2, t3) => {
            let v1 = eval_term(c, env, t1)?;
            let v2 = eval_term(c, env, t2)?;
            let v3 = eval_term(c, env, t3)?;
            let mut args: Vec<Value> = Vec::new();
            args.push(v1);
            args.push(v2);
            args.push(v3);
            let r = c.call_bool(*f, &args);
            proof {
                assert(args.deep_view() =~= seq![args@[0]@, args@[1]@, args@[2]@]);
            }
            Ok(r)
        },
        BoolExp::Guard4(f, t1, t2, t3, t4) => {
            let v1 = eval_term(c, env, t1)?;
            let v2 = eval_term(c, env, t2)?;
            let v3 = eval_term(c, env, t3)?;
            let v4 = eval_term(c, env, t4)?;
            let mut args: Vec<Value> = Vec::new();
            args.push(v1);
            args.push(v2);
            args.push(v3);
            args.push(v4);
            let r = c.call_bool(*f, &args);
            proof {
                assert(args.deep_view() =~= seq![args@[0]@, args@[1]@, args@[2]@, args@[3]@]);
            }
            Ok(r)
        },
        BoolExp::Guard5(f, t1, t2, t3, t4, t5) => {
            let v1 = eval_term(c, env, t1)?;
            let v2 = eval_term(c, env, t2)?;
            let v3 = eval_term(c, env, t3)?;
            let v4 = eval_term(c, env, t4)?;
            let v5 = eval_term(c, env, t5)?;
            let mut args: Vec<Value> = Vec::new();
            args.push(v1);
            args.push(v2);
            args.push(v3);
            args.push(v4);
            args.push(v5);
            let r = c.call_bool(*f, &args);
            proof {
                assert(args.deep_view() =~= seq![
                    args@[0]@,
                    args@[1]@,
                    args@[2]@,
                    args@[3]@,
                    args@[4]@,
                ]);
            }
            Ok(r)
        },
    }
}

/// Evaluate a conjunction of boolean tests, left to right.
pub fn eval_bool_exprs<C: Callables>(c: &C, db: &Database, env: &SearchEnv, exprs: &Vec<BoolExp>)
    -> (r: Result<bool, EvalError>)
    ensures
        match r {
            Ok(b) => spec_eval_bools(c, db@, env@, exprs@) == Ok::<bool, EvalError>(b),
            Err(e) => spec_eval_bools(c, db@, env@, exprs@) == Err::<bool, EvalError>(e),
        },
{
    proof {
        assert(exprs@.skip(0) =~= exprs@);
    }
    let mut i: usize = 0;
    while i < exprs.len()
        invariant
            0 <= i <= exprs@.len(),
            spec_eval_bools(c, db@, env@, exprs@) == spec_eval_bools(
                c,
                db@,
                env@,
                exprs@.skip(i as int),
            ),
        decreases exprs@.len() - i,
    {
        proof {
            assert(exprs@.skip(i as int)[0] == exprs@[i as int]);
            assert(exprs@.skip(i as int).skip(1) =~= exprs@.skip(i as int + 1));
        }
        match eval_bool_exp(c, db, env, &exprs[i]) {
            Ok(true) => {},
            Ok(false) => {
                return Ok(false);
            },
            Err(e) => {
                return Err(e);
            },
        }
        i = i + 1;
    }
    proof {
        assert(exprs@.skip(i as int).len() == 0);
    }
    Ok(true)
}

/// The persistent list the query scan walks, backed by `rpds::List`.
/// Verus cannot be given the list type itself (its pointer-kind bound is a
/// foreign trait), so the list lives in a hidden field and is reached only
/// through the trusted operations below, specified over [`query_list_view`].
#[verifier::external_body]
pub struct QueryList {
    items: rpds::List<(i32, RamTerm)>,
}

/// The entries a prefix-query list holds, front to back.
pub uninterp spec fn query_list_view(l: QueryList) -> Seq<(i32, RamTerm)>;

/// Relies on rpds::List::new: the empty persistent list.
#[verifier::external_body]
fn query_list_new() -> (r: QueryList)
    ensures
        query_list_view(r) == Seq::<(i32, RamTerm)>::empty(),
{
    QueryList { items: rpds::List::new() }
}

/// Relies on rpds::List::push_front: the same list with `v` at the front.
#[verifier::external_body]
fn query_list_push_front(l: &QueryList, v: (i32, RamTerm)) -> (r: QueryList)
    ensures
        query_list_view(r) == seq![v] + query_list_view(*l),
{
    QueryList { items: l.items.push_front(v) }
}

/// Relies on rpds::List::first: the front entry, or nothing when empty.
#[verifier::external_body]
fn query_list_first(l: &QueryList) -> (r: Option<&(i32, RamTerm)>)
    ensures
        match r {
            Some(x) => query_list_view(*l).len() > 0 && *x == query_list_view(*l)[0],
            None => query_list_view(*l).len() == 0,
        },
{
    l.items.first()
}

/// Relies on rpds::List::drop_first: the list behind the front entry, or
/// nothing when empty.
#[verifier::external_body]
fn query_list_drop_first(l: &QueryList) -> (r: Option<QueryList>)
    ensures
        match r {
            Some(l2) => query_list_view(*l).len() > 0 && query_list_view(l2) == query_list_view(
                *l,
            ).skip(1),
            None => query_list_view(*l).len() == 0,
        },
{
    match l.items.drop_first() {
        Some(items) => Some(QueryList { items }),
        None => None,
    }
}

/// Build the persistent query list holding exactly the prefix entries.
fn query_list_of(q: &Vec<(i32, RamTerm)>) -> (r: QueryList)
    ensures
        query_list_view(r) == q@,
{
    let mut l = query_list_new();
    let mut i: usize = q.len();
    proof {
        assert(q@.skip(q@.len() as int) =~= Seq::<(i32, RamTerm)>::empty());
    }
    while i > 0
        invariant
            0 <= i <= q@.len(),
            query_list_view(l) == q@.skip(i as int),
        decreases i,
    {
        i = i - 1;
        let entry = (q[i].0, q[i].1.clone());
        l = query_list_push_front(&l, entry);
        proof {
            assert(query_list_view(l) =~= q@.skip(i as int));
        }
    }
    proof {
        assert(q@.skip(0) =~= q@);
    }
    l
}

/// Does `tuple` match every `(position, term)` entry of the prefix query?
/// This is the test the `Query` operation runs on each stored tuple.
fn eval_query<C: Callables>(
    c: &C,
    env: &SearchEnv,
    query: &QueryList,
    tuple: &Vec<Value>,
) -> (r: Result<bool, EvalError>)
    ensures
        match r {
            Ok(b) => spec_query_match(c, env@, query_list_view(*query), tuple.deep_view())
                == Ok::<bool, EvalError>(b),
            Err(e) => spec_query_match(c, env@, query_list_view(*query), tuple.deep_view())
                == Err::<bool, EvalError>(e),
        },
    decreases query_list_view(*query).len(),
{
    match query_list_first(query) {
        None => Ok(true),
        Some(entry) => {
            let j = entry.0;
            if j < 0 {
                return Err(EvalError::OutOfBounds);
            }
            let ju = j as usize;
            if ju >= tuple.len() {
                return Err(EvalError::OutOfBounds);
            }
            let v = eval_term(c, env, &entry.1)?;
            if !tuple[ju].eq_value(&v) {
                return Ok(false);
            }
            match query_list_drop_first(query) {
                Some(rest) => eval_query(c, env, &rest, tuple),
                None => Ok(true),
            }
        },
    }
}

/// Evaluate a relational operation: run its nested loops against the
/// database, binding each visited row in the environment, and project the
/// derived tuples at the leaf.
#[verifier::loop_isolation(false)]
#[verifier::rlimit(60)]
pub fn eval_op<C: Callables>(c: &C, db: &mut Database, env: &mut SearchEnv, op: &RelOp) -> (r:
    Result<(), EvalError>)
    ensures
        match r {
            Ok(()) => spec_eval_op(c, old(db)@, old(env)@, *op) == Ok::<(DbV, EnvV), EvalError>(
                (final(db)@, final(env)@),
            ),
            Err(e) => spec_eval_op(c, old(db)@, old(env)@, *op) == Err::<(DbV, EnvV), EvalError>(e),
        },
        final(env)@.0.len() == old(env)@.0.len(),
        final(env)@.1.len() == old(env)@.1.len(),
    decreases *op,
{
    match op {
        RelOp::Search(var, sym, body) => match var {
            RowVar::Named(_) => Err(EvalError::UnresolvedVar),
            RowVar::Index(i) => {
                if *i < 0 {
                    return Err(EvalError::OutOfBounds);
                }
                let iu = *i as usize;
                if iu >= env.depth() || iu >= env.lat_depth() {
                    return Err(EvalError::OutOfBounds);
                }
                let snapshot = db.rel_clone_rows(sym);
                let ghost rows = snapshot@;
                let ghost db0 = db@;
                let ghost env0 = env@;
                proof {
                    assert(rows.skip(0) =~= rows);
                }
                let mut j: usize = 0;
                while j < snapshot.len()
                    invariant
                        0 <= j <= snapshot@.len(),
                        snapshot@ == rows,
                        iu == i,
                        iu < env@.0.len(),
                        iu < env@.1.len(),
                        env@.0.len() == env0.0.len(),
                        env@.1.len() == env0.1.len(),
                        spec_search_fold(c, db0, env0, iu as int, rows, **body)
                            == spec_search_fold(
                            c,
                            db@,
                            env@,
                            iu as int,
                            rows.skip(j as int),
                            **body,
                        ),
                    decreases snapshot@.len() - j,
                {
                    proof {
                        assert(rows.skip(j as int)[0] == rows[j as int]);
                        assert(rows.skip(j as int).skip(1) =~= rows.skip(j as int + 1));
                    }
                    let row = snapshot.row_at(j);
                    let tuple = clone_row(&row.0);
                    proof {
                        assert(tuple.deep_view() == rows[j as int].0);
                    }
                    env.update_tuple_env(iu, tuple);
                    env.update_lat_env(iu, row.1.clone());
                    match eval_op(c, db, env, body) {
                        Ok(()) => {},
                        Err(e) => {
                            return Err(e);
                        },
                    }
                    j = j + 1;
                }
                proof {
                    assert(rows.skip(j as int).len() == 0);
                }
                Ok(())
            },
        },
        RelOp::Query(var, sym, q, body) => match var {
            RowVar::Named(_) => Err(EvalError::UnresolvedVar),
            RowVar::Index(i) => {
                if *i < 0 {
                    return Err(EvalError::OutOfBounds);
                }
                let iu = *i as usize;
                if iu >= env.depth() || iu >= env.lat_depth() {
                    return Err(EvalError::OutOfBounds);
                }
                let qlist = query_list_of(q);
                let snapshot = db.rel_clone_rows(sym);
                let ghost rows = snapshot@;
                let ghost db0 = db@;
                let ghost env0 = env@;
                proof {
                    assert(rows.skip(0) =~= rows);
                }
                let mut j: usize = 0;
                while j < snapshot.len()
                    invariant
                        0 <= j <= snapshot@.len(),
                        snapshot@ == rows,
                        iu == i,
                        iu < env@.0.len(),
                        iu < env@.1.len(),
                        env@.0.len() == env0.0.len(),
                        env@.1.len() == env0.1.len(),
                        query_list_view(qlist) == q@,
                        spec_query_fold(c, db0, env0, iu as int, rows, q@, **body)
                            == spec_query_fold(
                            c,
                            db@,
                            env@,
                            iu as int,
                            rows.skip(j as int),
                            q@,
                            **body,
                        ),
                    decreases snapshot@.len() - j,
                {
                    proof {
                        assert(rows.skip(j as int)[0] == rows[j as int]);
                        assert(rows.skip(j as int).skip(1) =~= rows.skip(j as int + 1));
                    }
                    let row = snapshot.row_at(j);
                    let hit = match eval_query(c, env, &qlist, &row.0) {
                        Ok(b) => b,
                        Err(e) => {
                            return Err(e);
                        },
                    };
                    if hit {
                        let tuple = clone_row(&row.0);
                        proof {
                            assert(tuple.deep_view() == rows[j as int].0);
                        }
                        env.update_tuple_env(iu, tuple);
                        env.update_lat_env(iu, row.1.clone());
                        match eval_op(c, db, env, body) {
                            Ok(()) => {},
                            Err(e) => {
                                return Err(e);
                            },
                        }
                    }
                    j = j + 1;
                }
                proof {
                    assert(rows.skip(j as int).len() == 0);
                }
                Ok(())
            },
        },
        RelOp::Functional(var, f, terms, body) => match var {
            RowVar::Named(_) => Err(EvalError::UnresolvedVar),
            RowVar::Index(i) => {
                if *i < 0 {
                    return Err(EvalError::OutOfBounds);
                }
                let iu = *i as usize;
                if iu >= env.depth() {
                    return Err(EvalError::OutOfBounds);
                }
                let args = eval_terms(c, env, terms)?;
                let gen = c.call_rows(*f, &args);
                let ghost rows = gen.deep_view();
                let ghost db0 = db@;
                let ghost env0 = env@;
                proof {
                    assert(rows.skip(0) =~= rows);
                }
                let mut j: usize = 0;
                while j < gen.len()
                    invariant
                        0 <= j <= gen@.len(),
                        gen.deep_view() == rows,
                        gen@.len() == rows.len(),
                        iu == i,
                        iu < env@.0.len(),
                        env@.0.len() == env0.0.len(),
                        env@.1.len() == env0.1.len(),
                        spec_func_fold(c, db0, env0, iu as int, rows, **body) == spec_func_fold(
                            c,
                            db@,
                            env@,
                            iu as int,
                            rows.skip(j as int),
                            **body,
                        ),
                    decreases gen@.len() - j,
                {
                    proof {
                        assert(rows.skip(j as int)[0] == rows[j as int]);
                        assert(rows.skip(j as int).skip(1) =~= rows.skip(j as int + 1));
                    }
                    let tuple = clone_row(&gen[j]);
                    proof {
                        assert(tuple.deep_view() == rows[j as int]);
                    }
                    env.update_tuple_env(iu, tuple);
                    match eval_op(c, db, env, body) {
                        Ok(()) => {},
                        Err(e) => {
                            return Err(e);
                        },
                    }
                    j = j + 1;
                }
                proof {
                    assert(rows.skip(j as int).len() == 0);
                }
                Ok(())
            },
        },
        RelOp::Project(terms, sym) => {
            let vals = eval_terms(c, env, terms)?;
            let ghost vals_dv = vals.deep_view();
            match crate::ram::into_denotation(sym) {
                crate::shared::Denotation::Relational => {
                    db.rel_store(sym, vals, Value::default());
                    Ok(())
                },
                crate::shared::Denotation::Latticenal(bot, leq, lub, _) => {
                    if vals.len() == 0 {
                        return Err(EvalError::EmptyLatticenal);
                    }
                    let mut key = vals;
                    let lat = match key.pop() {
                        Some(v) => v,
                        None => Value::Bool(false),
                    };
                    proof {
                        assert(key.deep_view() =~= vals_dv.drop_last());
                        assert(lat@ == vals_dv.last());
                    }
                    let mut args: Vec<Value> = Vec::new();
                    args.push(lat.clone());
                    args.push(bot.clone());
                    let discard = c.call_bool(*leq, &args);
                    proof {
                        assert(args.deep_view() =~= seq![args@[0]@, args@[1]@]);
                    }
                    if discard {
                        return Ok(());
                    }
                    let newv = match db.rel_get(sym, &key) {
                        None => lat,
                        Some(cur) => {
                            let mut args2: Vec<Value> = Vec::new();
                            args2.push(cur.clone());
                            args2.push(lat);
                            let merged = c.call_value(*lub, &args2);
                            proof {
                                assert(args2.deep_view() =~= seq![args2@[0]@, args2@[1]@]);
                            }
                            merged
                        },
                    };
                    db.rel_store(sym, key, newv);
                    Ok(())
                },
            }
        },
        RelOp::If(test, then) => {
            let t = eval_bool_exprs(c, db, env, test)?;
            if t {
                eval_op(c, db, env, then)
            } else {
                Ok(())
            }
        },
    }
}

/// Allocate the environment for an operation already nested below `depth`
/// loops: one slot per loop on the path to the projecting leaf.  Nothing is
/// allocated for a tree nested deeper than the machine can index.
fn alloc_env(depth: usize, rel_op: &RelOp) -> (r: Option<SearchEnv>)
    ensures
        match r {
            Some(env) => depth + op_depth(*rel_op) <= usize::MAX && env@ == empty_env(
                (depth + op_depth(*rel_op)) as nat,
            ),
            None => depth + op_depth(*rel_op) > usize::MAX,
        },
    decreases *rel_op,
{
    match rel_op {
        RelOp::Search(_, _, body) => {
            if depth == usize::MAX {
                None
            } else {
                alloc_env(depth + 1, body)
            }
        },
        RelOp::Query(_, _, _, body) => {
            if depth == usize::MAX {
                None
            } else {
                alloc_env(depth + 1, body)
            }
        },
        RelOp::Functional(_, _, _, body) => {
            if depth == usize::MAX {
                None
            } else {
                alloc_env(depth + 1, body)
            }
        },
        RelOp::Project(_, _) => {
            let env = SearchEnv::new(depth);
            proof {
                assert(env@.0 =~~= empty_env(depth as nat).0);
                assert(env@.1 =~= empty_env(depth as nat).1);
            }
            Some(env)
        },
        RelOp::If(_, then) => alloc_env(depth, then),
    }
}

/// Merge the source relation's rows into the destination: set union for a
/// relational source, pointwise `lub` for a latticenal one.
#[verifier::loop_isolation(false)]
#[verifier::rlimit(30)]
#[verifier::spinoff_prover]
fn eval_merge<C: Callables>(c: &C, db: &mut Database, src: &RamSym, dst: &RamSym) -> (r: Result<
    (),
    EvalError,
>)
    ensures
        match r {
            Ok(()) => final(db)@ == match src.den() {
                DenotationV::Relational => spec_merge_rel(
                    old(db)@,
                    dst.key(),
                    db_rows_or_empty(old(db)@, src.key()),
                ),
                DenotationV::Latticenal(_, _, lub, _) => spec_merge_lat(
                    c,
                    old(db)@,
                    dst.key(),
                    lub,
                    db_rows_or_empty(old(db)@, src.key()),
                ),
            },
            Err(_) => false,
        },
{
    let snapshot = db.rel_clone_rows(src);
    let ghost rows = snapshot@;
    let ghost db0 = db@;
    proof {
        assert(rows.skip(0) =~= rows);
    }
    match crate::ram::into_denotation(src) {
        crate::shared::Denotation::Relational => {
            let mut j: usize = 0;
            while j < snapshot.len()
                invariant
                    0 <= j <= snapshot@.len(),
                    snapshot@ == rows,
                    spec_merge_rel(db0, dst.key(), rows) == spec_merge_rel(
                        db@,
                        dst.key(),
                        rows.skip(j as int),
                    ),
                decreases snapshot@.len() - j,
            {
                proof {
                    assert(rows.skip(j as int)[0] == rows[j as int]);
                    assert(rows.skip(j as int).skip(1) =~= rows.skip(j as int + 1));
                }
                let row = snapshot.row_at(j);
                let key = clone_row(&row.0);
                proof {
                    assert(key.deep_view() == rows[j as int].0);
                }
                db.rel_store(dst, key, row.1.clone());
                j = j + 1;
            }
            proof {
                assert(rows.skip(j as int).len() == 0);
            }
            Ok(())
        },
        crate::shared::Denotation::Latticenal(_, _, lub, _) => {
            let lub_id = *lub;
            let mut j: usize = 0;
            while j < snapshot.len()
                invariant
                    0 <= j <= snapshot@.len(),
                    snapshot@ == rows,
                    spec_merge_lat(c, db0, dst.key(), lub_id as int, rows) == spec_merge_lat(
                        c,
                        db@,
                        dst.key(),
                        lub_id as int,
                        rows.skip(j as int),
                    ),
                decreases snapshot@.len() - j,
            {
                proof {
                    assert(rows.skip(j as int)[0] == rows[j as int]);
                    assert(rows.skip(j as int).skip(1) =~= rows.skip(j as int + 1));
                }
                let row = snapshot.row_at(j);
                let key = clone_row(&row.0);
                proof {
                    assert(key.deep_view() == rows[j as int].0);
                }
                let newv = match db.rel_get(dst, &key) {
                    None => row.1.clone(),
                    Some(cur) => {
                        let mut args: Vec<Value> = Vec::new();
                        args.push(cur.clone());
                        args.push(row.1.clone());
                        let merged = c.call_value(lub_id, &args);
                        proof {
                            assert(args.deep_view() =~= seq![args@[0]@, args@[1]@]);
                        }
                        merged
                    },
                };
                db.rel_store(dst, key, newv);
                j = j + 1;
            }
            proof {
                assert(rows.skip(j as int).len() == 0);
            }
            Ok(())
        },
    }
}

/// Execute the statements of a sequence in order.
#[verifier::loop_isolation(false)]
#[verifier::rlimit(30)]
#[verifier::spinoff_prover]
fn eval_seq_stmts<C: Callables>(c: &C, db: &mut Database, stmts: &Vec<RamStmt>) -> (r: Result<
    (),
    EvalError,
>)
    ensures
        match r {
            Ok(()) => exists|fuel: nat|
                spec_eval_seq(c, old(db)@, stmts@, stmts@.len() as int, fuel) == StepRes::Done(
                    final(db)@,
                ),
            Err(e) => {
                &&& e == EvalError::IterationLimit ==> spec_eval_seq(
                    c,
                    old(db)@,
                    stmts@,
                    stmts@.len() as int,
                    u64::MAX as nat,
                ) == StepRes::Pending
                &&& e == EvalError::IterationLimit ==> exists|i: int, f: nat, mid: DbV|
                    #![trigger seq_prefix_done(c, old(db)@, stmts@, i, f, mid)]
                    0 <= i < stmts@.len() && seq_prefix_done(c, old(db)@, stmts@, i, f, mid)
                        && spec_interrupted(c, mid, final(db)@, stmts@[i])
                &&& e != EvalError::IterationLimit ==> exists|fuel: nat|
                    spec_eval_seq(c, old(db)@, stmts@, stmts@.len() as int, fuel)
                        == StepRes::Fail(e)
            },
        },
    decreases stmts@, 1int,
{
    let ghost db0 = db@;
    let mut i: usize = 0;
    proof {
        assert(spec_eval_seq(c, db0, stmts@, 0, 0) == StepRes::Done(db@));
    }
    while i < stmts.len()
        invariant
            0 <= i <= stmts@.len(),
            exists|fuel: nat|
                spec_eval_seq(c, db0, stmts@, i as int, fuel) == StepRes::Done(db@),
        decreases stmts@.len() - i,
    {
        let ghost f1 = choose|fuel: nat|
            spec_eval_seq(c, db0, stmts@, i as int, fuel) == StepRes::Done(db@);
        let ghost db_pre = db@;
        match eval_stmt(c, db, &stmts[i]) {
            Ok(()) => {
                proof {
                    let f2 = choose|fuel: nat|
                        spec_eval_stmt(c, db_pre, stmts@[i as int], fuel) == StepRes::Done(db@);
                    let f: nat = if f1 <= f2 {
                        f2
                    } else {
                        f1
                    };
                    lemma_fuel_mono_seq(c, db0, stmts@, i as int, f1, f);
                    lemma_fuel_mono(c, db_pre, stmts@[i as int], f2, f);
                    assert(spec_eval_seq(c, db0, stmts@, i as int + 1, f) == StepRes::Done(db@));
                }
            },
            Err(e) => {
                proof {
                    if e != EvalError::IterationLimit {
                        let f2 = choose|fuel: nat|
                            spec_eval_stmt(c, db_pre, stmts@[i as int], fuel) == StepRes::Fail(e);
                        let f: nat = if f1 <= f2 {
                            f2
                        } else {
                            f1
                        };
                        lemma_fuel_mono_seq(c, db0, stmts@, i as int, f1, f);
                        lemma_fuel_mono(c, db_pre, stmts@[i as int], f2, f);
                        assert(spec_eval_seq(c, db0, stmts@, i as int + 1, f) == StepRes::Fail(e));
                        lemma_seq_fail_extends(c, db0, stmts@, i as int + 1, stmts@.len() as int, f);
                    } else {
                        let mx = u64::MAX as nat;
                        assert(spec_eval_stmt(c, db_pre, stmts@[i as int], mx)
                            == StepRes::Pending);
                        if spec_eval_seq(c, db0, stmts@, i as int, mx) == StepRes::Pending {
                            assert(spec_eval_seq(c, db0, stmts@, i as int + 1, mx)
                                == StepRes::Pending);
                        } else {
                            if f1 <= mx {
                                lemma_fuel_mono_seq(c, db0, stmts@, i as int, f1, mx);
                            } else {
                                lemma_fuel_mono_seq(c, db0, stmts@, i as int, mx, f1);
                            }
                            assert(spec_eval_seq(c, db0, stmts@, i as int, mx) == StepRes::Done(
                                db_pre,
                            ));
                            assert(spec_eval_seq(c, db0, stmts@, i as int + 1, mx)
                                == StepRes::Pending);
                        }
                        lemma_seq_pending_extends(
                            c,
                            db0,
                            stmts@,
                            i as int + 1,
                            stmts@.len() as int,
                            mx,
                        );
                        assert(spec_interrupted(c, db_pre, db@, stmts@[i as int]));
                        assert(seq_prefix_done(c, db0, stmts@, i as int, f1, db_pre));
                    }
                }
                return Err(e);
            },
        }
        i = i + 1;
    }
    Ok(())
}

/// Run the fixpoint driver: evaluate the tests against an empty
/// environment; while any fails, run the body once more.  The driver gives
/// up only at the machine bound on its pass counter.
#[verifier::loop_isolation(false)]
#[verifier::rlimit(30)]
#[verifier::spinoff_prover]
fn eval_until<C: Callables>(c: &C, db: &mut Database, test: &Vec<BoolExp>, body: &RamStmt) -> (r:
    Result<(), EvalError>)
    ensures
        match r {
            Ok(()) => exists|fuel: nat|
                spec_until(c, old(db)@, test@, *body, fuel) == StepRes::Done(final(db)@),
            Err(e) => {
                &&& e == EvalError::IterationLimit ==> spec_until(
                    c,
                    old(db)@,
                    test@,
                    *body,
                    u64::MAX as nat,
                ) == StepRes::Pending
                &&& e == EvalError::IterationLimit ==> exists|mid: DbV|
                    #[trigger] until_reaches(c, old(db)@, mid, test@, *body) && (final(db)@ == mid
                        || spec_interrupted(c, mid, final(db)@, *body))
                &&& e != EvalError::IterationLimit ==> exists|fuel: nat|
                    spec_until(c, old(db)@, test@, *body, fuel) == StepRes::Fail(e)
            },
        },
    decreases *body, 1int,
{
    let env = SearchEnv::new(0);
    let mut budget: u64 = u64::MAX;
    proof {
        assert(env@.0 =~= empty_env(0).0);
        assert(env@.1 =~= empty_env(0).1);
        lemma_until_reaches_refl(c, old(db)@, test@, *body);
        lemma_until_pends_refl(c, old(db)@, test@, *body);
    }
    loop
        invariant
            env@ == empty_env(0),
            until_reaches(c, old(db)@, db@, test@, *body),
            until_pends(c, old(db)@, db@, test@, *body, (u64::MAX - budget) as nat),
        decreases budget,
    {
        let ghost db_head = db@;
        let ghost k_head = (u64::MAX - budget) as nat;
        let t = match eval_bool_exprs(c, db, &env, test) {
            Ok(b) => b,
            Err(e) => {
                proof {
                    lemma_bools_err_kind(c, db@, empty_env(0), test@);
                    assert(spec_until(c, db@, test@, *body, 0) == StepRes::Fail(e));
                    lemma_until_reaches_result(c, old(db)@, db@, test@, *body, 0);
                }
                return Err(e);
            },
        };
        if t {
            proof {
                assert(spec_until(c, db@, test@, *body, 0) == StepRes::Done(db@));
                lemma_until_reaches_result(c, old(db)@, db@, test@, *body, 0);
            }
            return Ok(());
        }
        if budget == 0 {
            proof {
                assert(spec_until(c, db@, test@, *body, 0) == StepRes::Pending);
                reveal(until_pends);
                assert(spec_until(c, old(db)@, test@, *body, (0 + k_head) as nat)
                    == StepRes::Pending);
                assert((0 + k_head) as nat == u64::MAX as nat);
                assert(until_reaches(c, old(db)@, db@, test@, *body) && (db@ == db@
                    || spec_interrupted(c, db@, db@, *body)));
            }
            return Err(EvalError::IterationLimit);
        }
        budget = budget - 1;
        match eval_stmt(c, db, body) {
            Ok(()) => {
                proof {
                    let f_b = choose|fuel: nat|
                        spec_eval_stmt(c, db_head, *body, fuel) == StepRes::Done(db@);
                    lemma_until_reaches_step(c, old(db)@, db_head, db@, test@, *body, f_b);
                    lemma_until_pends_step(
                        c,
                        old(db)@,
                        db_head,
                        db@,
                        test@,
                        *body,
                        k_head,
                        f_b,
                    );
                    assert((k_head + 1) as nat == (u64::MAX - budget) as nat);
                }
            },
            Err(e) => {
                proof {
                    if e != EvalError::IterationLimit {
                        let f_b = choose|fuel: nat|
                            spec_eval_stmt(c, db_head, *body, fuel) == StepRes::Fail(e);
                        lemma_fuel_mono(c, db_head, *body, f_b, f_b + 1);
                        assert(spec_until(c, db_head, test@, *body, f_b + 1) == StepRes::Fail(e));
                        lemma_until_reaches_result(c, old(db)@, db_head, test@, *body, f_b + 1);
                    } else {
                        let mx = u64::MAX as nat;
                        assert(spec_eval_stmt(c, db_head, *body, mx) == StepRes::Pending);
                        assert(spec_until(c, db_head, test@, *body, mx) == StepRes::Pending);
                        lemma_pending_down_until(
                            c,
                            db_head,
                            test@,
                            *body,
                            (mx - k_head) as nat,
                            mx,
                        );
                        reveal(until_pends);
                        assert(spec_until(
                            c,
                            old(db)@,
                            test@,
                            *body,
                            ((mx - k_head) + k_head) as nat,
                        ) == StepRes::Pending);
                        assert(((mx - k_head) + k_head) as nat == mx);
                        assert(spec_interrupted(c, db_head, db@, *body));
                        assert(until_reaches(c, old(db)@, db_head, test@, *body) && (db@ == db_head
                            || spec_interrupted(c, db_head, db@, *body)));
                    }
                }
                return Err(e);
            },
        }
    }
}

/// Execute one RAM statement against the database.
#[verifier::rlimit(30)]
#[verifier::spinoff_prover]
pub fn eval_stmt<C: Callables>(c: &C, db: &mut Database, stmt: &RamStmt) -> (r: Result<
    (),
    EvalError,
>)
    ensures
        match r {
            Ok(()) => exists|fuel: nat|
                spec_eval_stmt(c, old(db)@, *stmt, fuel) == StepRes::Done(final(db)@),
            Err(e) => {
                &&& e == EvalError::IterationLimit ==> spec_eval_stmt(
                    c,
                    old(db)@,
                    *stmt,
                    u64::MAX as nat,
                ) == StepRes::Pending
                &&& e == EvalError::IterationLimit ==> spec_interrupted(
                    c,
                    old(db)@,
                    final(db)@,
                    *stmt,
                )
                &&& e != EvalError::IterationLimit ==> exists|fuel: nat|
                    spec_eval_stmt(c, old(db)@, *stmt, fuel) == StepRes::Fail(e)
            },
        },
    decreases *stmt, 0int,
{
    match stmt {
        RamStmt::Insert(rel_op) => {
            match alloc_env(0, rel_op) {
                None => {
                    proof {
                        assert(spec_eval_stmt(c, old(db)@, *stmt, 0) == StepRes::Fail(
                            EvalError::OutOfBounds,
                        ));
                    }
                    Err(EvalError::OutOfBounds)
                },
                Some(mut env) => {
                    match eval_op(c, db, &mut env, rel_op) {
                        Ok(()) => {
                            proof {
                                assert(spec_eval_stmt(c, old(db)@, *stmt, 0) == StepRes::Done(db@));
                            }
                            Ok(())
                        },
                        Err(e) => {
                            proof {
                                lemma_op_err_kind(
                                    c,
                                    old(db)@,
                                    empty_env(op_depth(*rel_op)),
                                    *rel_op,
                                );
                                assert(spec_eval_stmt(c, old(db)@, *stmt, 0) == StepRes::Fail(e));
                            }
                            Err(e)
                        },
                    }
                },
            }
        },
        RamStmt::Merge(src, dst) => {
            match eval_merge(c, db, src, dst) {
                Ok(()) => {
                    proof {
                        assert(spec_eval_stmt(c, old(db)@, *stmt, 0) == StepRes::Done(db@));
                    }
                    Ok(())
                },
                Err(e) => Err(e),
            }
        },
        RamStmt::Assign(lhs, rhs) => {
            let rows = db.rel_clone_rows(rhs);
            db.insert_relations((**lhs).clone(), rows);
            proof {
                assert(spec_eval_stmt(c, old(db)@, *stmt, 0) == StepRes::Done(db@));
            }
            Ok(())
        },
        RamStmt::Purge(ram_sym) => {
            db.remove(ram_sym);
            proof {
                assert(spec_eval_stmt(c, old(db)@, *stmt, 0) == StepRes::Done(db@));
            }
            Ok(())
        },
        RamStmt::Sequence(stmts) => {
            let r = eval_seq_stmts(c, db, stmts);
            proof {
                if r is Ok {
                    let fuel = choose|fuel: nat|
                        spec_eval_seq(c, old(db)@, stmts@, stmts@.len() as int, fuel)
                            == StepRes::Done(db@);
                    assert(spec_eval_stmt(c, old(db)@, *stmt, fuel) == StepRes::Done(db@));
                } else {
                    let e = r->Err_0;
                    if e != EvalError::IterationLimit {
                        let fuel = choose|fuel: nat|
                            spec_eval_seq(c, old(db)@, stmts@, stmts@.len() as int, fuel)
                                == StepRes::Fail(e);
                        assert(spec_eval_stmt(c, old(db)@, *stmt, fuel) == StepRes::Fail(e));
                    } else {
                        assert(spec_eval_stmt(c, old(db)@, *stmt, u64::MAX as nat)
                            == StepRes::Pending);
                        let (i, f, mid) = choose|i: int, f: nat, mid: DbV|
                            #![trigger seq_prefix_done(c, old(db)@, stmts@, i, f, mid)]
                            0 <= i < stmts@.len() && seq_prefix_done(c, old(db)@, stmts@, i, f, mid)
                                && spec_interrupted(c, mid, db@, stmts@[i]);
                        assert(spec_interrupted(c, old(db)@, db@, *stmt));
                    }
                }
            }
            r
        },
        RamStmt::Until(test, body) => {
            let r = eval_until(c, db, test, body);
            proof {
                if r is Ok {
                    let fuel = choose|fuel: nat|
                        spec_until(c, old(db)@, test@, **body, fuel) == StepRes::Done(db@);
                    assert(spec_eval_stmt(c, old(db)@, *stmt, fuel) == StepRes::Done(db@));
                } else {
                    let e = r->Err_0;
                    if e != EvalError::IterationLimit {
                        let fuel = choose|fuel: nat|
                            spec_until(c, old(db)@, test@, **body, fuel) == StepRes::Fail(e);
                        assert(spec_eval_stmt(c, old(db)@, *stmt, fuel) == StepRes::Fail(e));
                    } else {
                        assert(spec_eval_stmt(c, old(db)@, *stmt, u64::MAX as nat)
                            == StepRes::Pending);
                        let mid = choose|mid: DbV|
                            #[trigger] until_reaches(c, old(db)@, mid, test@, **body) && (db@ == mid
                                || spec_interrupted(c, mid, db@, **body));
                        assert(spec_interrupted(c, old(db)@, db@, *stmt));
                    }
                }
            }
            r
        },
        RamStmt::Comment(_) => {
            proof {
                assert(spec_eval_stmt(c, old(db)@, *stmt, 0) == StepRes::Done(db@));
            }
            Ok(())
        },
    }
}

/// Run a lowered RAM program against a caller-supplied database,
/// accumulating its derived facts there.
pub fn interpret_with_database<C: Callables>(c: &C, db: &mut Database, stmt: &RamStmt) -> (r:
    Result<(), EvalError>)
    ensures
        match r {
            Ok(()) => exists|fuel: nat|
                spec_eval_stmt(c, old(db)@, *stmt, fuel) == StepRes::Done(final(db)@),
            Err(e) => {
                &&& e == EvalError::IterationLimit ==> spec_eval_stmt(
                    c,
                    old(db)@,
                    *stmt,
                    u64::MAX as nat,
                ) == StepRes::Pending
                &&& e == EvalError::IterationLimit ==> spec_interrupted(
                    c,
                    old(db)@,
                    final(db)@,
                    *stmt,
                )
                &&& e != EvalError::IterationLimit ==> exists|fuel: nat|
                    spec_eval_stmt(c, old(db)@, *stmt, fuel) == StepRes::Fail(e)
            },
        },
{
    eval_stmt(c, db, stmt)
}

/// Run a lowered RAM program against a fresh database and hand the database
/// of derived facts back.
pub fn interpret<C: Callables>(c: &C, stmt: &RamStmt) -> (r: Result<Database, EvalError>)
    ensures
        match r {
            Ok(db) => exists|fuel: nat|
                spec_eval_stmt(c, DbV::empty(), *stmt, fuel) == StepRes::Done(db@),
            Err(e) => {
                &&& e == EvalError::IterationLimit ==> spec_eval_stmt(
                    c,
                    DbV::empty(),
                    *stmt,
                    u64::MAX as nat,
                ) == StepRes::Pending
                &&& e != EvalError::IterationLimit ==> exists|fuel: nat|
                    spec_eval_stmt(c, DbV::empty(), *stmt, fuel) == StepRes::Fail(e)
            },
        },
{
    let mut db = Database::new();
    match eval_stmt(c, &mut db, stmt) {
        Ok(()) => Ok(db),
        Err(e) => Err(e),
    }
}


/// Purge/Empty consistency law, first part: purging a relation removes it,
/// and an emptiness test on it afterwards holds, under any probe symbol
/// naming the same relation.
pub proof fn lemma_purge_empty<C: Callables>(
    c: &C,
    db: DbV,
    sym: RamSym,
    probe: RamSym,
    env: EnvV,
    fuel: nat,
)
    requires
        probe.key() == sym.key(),
    ensures
        spec_eval_stmt(c, db, RamStmt::Purge(Box::new(sym)), fuel) == StepRes::Done(
            db.remove(sym.key()),
        ),
        spec_eval_bool(c, db.remove(sym.key()), env, BoolExp::Empty(probe)) == Ok::<
            bool,
            EvalError,
        >(true),
{
}

/// Purge/Empty consistency law, second part: after a purge the relation
/// behaves as empty for membership tests — a relational test finds no
/// tuple, a latticenal one compares against the lattice's bottom.
pub proof fn lemma_purge_not_member<C: Callables>(
    c: &C,
    db: DbV,
    sym: RamSym,
    probe: RamSym,
    env: EnvV,
    terms: Vec<RamTerm>,
    vals: Seq<ValueV>,
)
    requires
        probe.key() == sym.key(),
        spec_eval_terms(c, env, terms@) == Ok::<Seq<ValueV>, EvalError>(vals),
    ensures
        probe.den() is Relational ==> spec_eval_bool(
            c,
            db.remove(sym.key()),
            env,
            BoolExp::NotMemberOf(terms, probe),
        ) == Ok::<bool, EvalError>(true),
        (probe.den() is Latticenal && vals.len() > 0) ==> spec_eval_bool(
            c,
            db.remove(sym.key()),
            env,
            BoolExp::NotMemberOf(terms, probe),
        ) == Ok::<bool, EvalError>(
            !c.bool_fn(probe.den()->Latticenal_1, seq![vals.last(), probe.den()->Latticenal_0]),
        ),
{
}

/// Purge/Empty consistency law, third part: merging from a purged relation
/// changes nothing.
pub proof fn lemma_purge_merge<C: Callables>(
    c: &C,
    db: DbV,
    sym: RamSym,
    probe: RamSym,
    dst: RamSym,
    fuel: nat,
)
    requires
        probe.key() == sym.key(),
    ensures
        spec_eval_stmt(
            c,
            db.remove(sym.key()),
            RamStmt::Merge(Box::new(probe), Box::new(dst)),
            fuel,
        ) == StepRes::Done(db.remove(sym.key())),
{
    let purged = db.remove(sym.key());
    assert(db_rows_or_empty(purged, probe.key()) =~= Seq::<(Seq<ValueV>, ValueV)>::empty());
    match probe.den() {
        DenotationV::Relational => {
            assert(spec_merge_rel(purged, dst.key(), Seq::empty()) == purged);
        },
        DenotationV::Latticenal(_, _, lub, _) => {
            assert(spec_merge_lat(c, purged, dst.key(), lub, Seq::empty()) == purged);
        },
    }
}

/// Lattice merge law, first part: projecting two lattice values for the
/// same fresh key stores their `lub`, whichever arrives first — insertion
/// order does not matter for a commutative `lub`, which the lattice's
/// caller contract guarantees.
pub proof fn lemma_lattice_project_merge<C: Callables>(
    c: &C,
    db: DbV,
    skey: SymKey,
    bot: ValueV,
    leq: int,
    lub: int,
    key: Seq<ValueV>,
    v1: ValueV,
    v2: ValueV,
)
    requires
        !c.bool_fn(leq, seq![v1, bot]),
        !c.bool_fn(leq, seq![v2, bot]),
        rows_lookup(db_rows_or_empty(db, skey), key) is None,
        c.value_fn(lub, seq![v1, v2]) == c.value_fn(lub, seq![v2, v1]),
    ensures
        ({
            let after12 = spec_project_lat(
                c,
                spec_project_lat(c, db, skey, bot, leq, lub, key, v1),
                skey,
                bot,
                leq,
                lub,
                key,
                v2,
            );
            let after21 = spec_project_lat(
                c,
                spec_project_lat(c, db, skey, bot, leq, lub, key, v2),
                skey,
                bot,
                leq,
                lub,
                key,
                v1,
            );
            &&& rows_lookup(db_rows_or_empty(after12, skey), key) == Some(
                c.value_fn(lub, seq![v1, v2]),
            )
            &&& rows_lookup(db_rows_or_empty(after12, skey), key) == rows_lookup(
                db_rows_or_empty(after21, skey),
                key,
            )
            &&& forall|key2: Seq<ValueV>|
                key2 != key ==> #[trigger] rows_lookup(db_rows_or_empty(after12, skey), key2)
                    == rows_lookup(db_rows_or_empty(db, skey), key2)
        }),
{
    let rows = db_rows_or_empty(db, skey);
    lemma_store_lookup(rows, key, v1);
    lemma_store_lookup(rows, key, v2);
    lemma_store_lookup(rows_store(rows, key, v1), key, c.value_fn(lub, seq![v1, v2]));
    lemma_store_lookup(rows_store(rows, key, v2), key, c.value_fn(lub, seq![v2, v1]));
    assert forall|key2: Seq<ValueV>| key2 != key implies rows_lookup(
        db_rows_or_empty(
            spec_project_lat(
                c,
                spec_project_lat(c, db, skey, bot, leq, lub, key, v1),
                skey,
                bot,
                leq,
                lub,
                key,
                v2,
            ),
            skey,
        ),
        key2,
    ) == rows_lookup(db_rows_or_empty(db, skey), key2) by {
        lemma_store_lookup_other(rows, key, v1, key2);
        lemma_store_lookup_other(
            rows_store(rows, key, v1),
            key,
            c.value_fn(lub, seq![v1, v2]),
            key2,
        );
    }
}

/// Lattice merge law, second part: a projected value that already sits at
/// or below the lattice's bottom is discarded — the database is unchanged,
/// so nothing at or below bottom is ever stored by a projection.
pub proof fn lemma_lattice_project_bottom<C: Callables>(
    c: &C,
    db: DbV,
    skey: SymKey,
    bot: ValueV,
    leq: int,
    lub: int,
    key: Seq<ValueV>,
    v: ValueV,
)
    requires
        c.bool_fn(leq, seq![v, bot]),
    ensures
        spec_project_lat(c, db, skey, bot, leq, lub, key, v) == db,
{
}

} // verus!
