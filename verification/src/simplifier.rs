use vstd::prelude::*;

use crate::interpreter::{
    empty_env, op_depth, spec_eval_bool, spec_eval_bools, spec_eval_op, spec_eval_term,
    spec_eval_terms, spec_eval_stmt, spec_merge_rel, spec_search_fold, EnvV, EvalError, StepRes,
};
use crate::database::{db_rows_or_empty, rows_store, DbV, RowsV};
use crate::callable::Callables;
use crate::ram::{BoolExp, RamStmt, RamSym, RamTerm, RelOp, RowVar, RowVarV};
use crate::shared::ValueV;

verus! {

/// The variables a term reads.
pub open spec fn spec_term_vars(term: RamTerm) -> Set<RowVarV>
    decreases term,
{
    match term {
        RamTerm::Lit(_) => Set::empty(),
        RamTerm::RowLoad(var, _) => set![var@],
        RamTerm::LoadLatVar(var) => set![var@],
        RamTerm::Meet(_, t1, t2) => spec_term_vars(*t1).union(spec_term_vars(*t2)),
        RamTerm::App0(_) => Set::empty(),
        RamTerm::App1(_, t1) => spec_term_vars(*t1),
        RamTerm::App2(_, t1, t2) => spec_term_vars(*t1).union(spec_term_vars(*t2)),
        RamTerm::App3(_, t1, t2, t3) => spec_term_vars(*t1).union(spec_term_vars(*t2)).union(
            spec_term_vars(*t3),
        ),
        RamTerm::App4(_, t1, t2, t3, t4) => spec_term_vars(*t1).union(spec_term_vars(*t2)).union(
            spec_term_vars(*t3),
        ).union(spec_term_vars(*t4)),
        RamTerm::App5(_, t1, t2, t3, t4, t5) => spec_term_vars(*t1).union(
            spec_term_vars(*t2),
        ).union(spec_term_vars(*t3)).union(spec_term_vars(*t4)).union(spec_term_vars(*t5)),
    }
}

/// The variables that occur in `term`.
pub fn ram_term_vars(term: &RamTerm) -> (r: Vec<RowVar>)
    ensures
        r.deep_view().to_set() == spec_term_vars(*term),
    decreases *term,
{
    let mut out: Vec<RowVar> = Vec::new();
    proof {
        assert(out.deep_view() =~= Seq::<RowVarV>::empty());
        assert(out.deep_view().to_set() =~= Set::<RowVarV>::empty());
    }
    match term {
        RamTerm::Lit(_) => {},
        RamTerm::RowLoad(var, _) => {
            out.push(var.clone());
            proof {
                assert(out.deep_view() =~= seq![var@]);
                assert(out.deep_view()[0] == var@);
                assert(out.deep_view().contains(var@));
                assert forall|x: RowVarV| out.deep_view().contains(x) implies x == var@ by {
                    let i = choose|i: int|
                        0 <= i < out.deep_view().len() && out.deep_view()[i] == x;
                }
                assert(out.deep_view().to_set() =~= set![var@]);
            }
        },
        RamTerm::LoadLatVar(var) => {
            out.push(var.clone());
            proof {
                assert(out.deep_view() =~= seq![var@]);
                assert(out.deep_view()[0] == var@);
                assert(out.deep_view().contains(var@));
                assert forall|x: RowVarV| out.deep_view().contains(x) implies x == var@ by {
                    let i = choose|i: int|
                        0 <= i < out.deep_view().len() && out.deep_view()[i] == x;
                }
                assert(out.deep_view().to_set() =~= set![var@]);
            }
        },
        RamTerm::Meet(_, t1, t2) => {
            append_vars(&mut out, ram_term_vars(t1));
            append_vars(&mut out, ram_term_vars(t2));
        },
        RamTerm::App0(_) => {},
        RamTerm::App1(_, t1) => {
            append_vars(&mut out, ram_term_vars(t1));
        },
        RamTerm::App2(_, t1, t2) => {
            append_vars(&mut out, ram_term_vars(t1));
            append_vars(&mut out, ram_term_vars(t2));
        },
        RamTerm::App3(_, t1, t2, t3) => {
            append_vars(&mut out, ram_term_vars(t1));
            append_vars(&mut out, ram_term_vars(t2));
            append_vars(&mut out, ram_term_vars(t3));
        },
        RamTerm::App4(_, t1, t2, t3, t4) => {
            append_vars(&mut out, ram_term_vars(t1));
            append_vars(&mut out, ram_term_vars(t2));
            append_vars(&mut out, ram_term_vars(t3));
            append_vars(&mut out, ram_term_vars(t4));
        },
        RamTerm::App5(_, t1, t2, t3, t4, t5) => {
            append_vars(&mut out, ram_term_vars(t1));
            append_vars(&mut out, ram_term_vars(t2));
            append_vars(&mut out, ram_term_vars(t3));
            append_vars(&mut out, ram_term_vars(t4));
            append_vars(&mut out, ram_term_vars(t5));
        },
    }
    proof {
        assert(out.deep_view().to_set() =~= spec_term_vars(*term));
    }
    out
}

/// Move the variables of `more` onto the end of `out`.
fn append_vars(out: &mut Vec<RowVar>, more: Vec<RowVar>)
    ensures
        final(out).deep_view().to_set() == old(out).deep_view().to_set().union(
            more.deep_view().to_set(),
        ),
{
    let ghost dvo = out.deep_view();
    let ghost dvm = more.deep_view();
    let mut m = more;
    out.append(&mut m);
    proof {
        assert(out.deep_view() =~= dvo + dvm);
        lemma_to_set_concat(dvo, dvm);
    }
}

/// The elements of a concatenation are the union of both sides' elements.
proof fn lemma_to_set_concat(a: Seq<RowVarV>, b: Seq<RowVarV>)
    ensures
        (a + b).to_set() == a.to_set().union(b.to_set()),
{
    assert forall|x: RowVarV| #[trigger]
        (a + b).to_set().contains(x) implies a.to_set().contains(x) || b.to_set().contains(x) by {
        let i = choose|i: int| 0 <= i < (a + b).len() && (a + b)[i] == x;
        if i < a.len() {
            assert(a[i] == x);
        } else {
            assert(b[i - a.len()] == x);
        }
    }
    assert forall|x: RowVarV| a.to_set().contains(x) implies #[trigger] (a + b).to_set().contains(
        x,
    ) by {
        let i = choose|i: int| 0 <= i < a.len() && a[i] == x;
        assert((a + b)[i] == x);
    }
    assert forall|x: RowVarV| b.to_set().contains(x) implies #[trigger] (a + b).to_set().contains(
        x,
    ) by {
        let i = choose|i: int| 0 <= i < b.len() && b[i] == x;
        assert((a + b)[a.len() + i] == x);
    }
    assert((a + b).to_set() =~= a.to_set().union(b.to_set()));
}

/// Structural sameness of two terms, strings compared by content.
pub open spec fn term_eqv(a: RamTerm, b: RamTerm) -> bool
    decreases a,
{
    match (a, b) {
        (RamTerm::Lit(v1), RamTerm::Lit(v2)) => v1@ == v2@,
        (RamTerm::RowLoad(x1, i1), RamTerm::RowLoad(x2, i2)) => x1@ == x2@ && i1 == i2,
        (RamTerm::LoadLatVar(x1), RamTerm::LoadLatVar(x2)) => x1@ == x2@,
        (RamTerm::Meet(f1, a1, b1), RamTerm::Meet(f2, a2, b2)) => f1 == f2 && term_eqv(*a1, *a2)
            && term_eqv(*b1, *b2),
        (RamTerm::App0(f1), RamTerm::App0(f2)) => f1 == f2,
        (RamTerm::App1(f1, a1), RamTerm::App1(f2, a2)) => f1 == f2 && term_eqv(*a1, *a2),
        (RamTerm::App2(f1, a1, b1), RamTerm::App2(f2, a2, b2)) => f1 == f2 && term_eqv(*a1, *a2)
            && term_eqv(*b1, *b2),
        (RamTerm::App3(f1, a1, b1, c1), RamTerm::App3(f2, a2, b2, c2)) => f1 == f2 && term_eqv(
            *a1,
            *a2,
        ) && term_eqv(*b1, *b2) && term_eqv(*c1, *c2),
        (RamTerm::App4(f1, a1, b1, c1, d1), RamTerm::App4(f2, a2, b2, c2, d2)) => f1 == f2
            && term_eqv(*a1, *a2) && term_eqv(*b1, *b2) && term_eqv(*c1, *c2) && term_eqv(
            *d1,
            *d2,
        ),
        (RamTerm::App5(f1, a1, b1, c1, d1, e1), RamTerm::App5(f2, a2, b2, c2, d2, e2)) => f1 == f2
            && term_eqv(*a1, *a2) && term_eqv(*b1, *b2) && term_eqv(*c1, *c2) && term_eqv(*d1, *d2)
            && term_eqv(*e1, *e2),
        _ => false,
    }
}

/// Decide structural sameness of two terms.
pub fn term_eq(a: &RamTerm, b: &RamTerm) -> (r: bool)
    ensures
        r == term_eqv(*a, *b),
    decreases *a,
{
    match (a, b) {
        (RamTerm::Lit(v1), RamTerm::Lit(v2)) => v1.eq_value(v2),
        (RamTerm::RowLoad(x1, i1), RamTerm::RowLoad(x2, i2)) => x1.eq_var(x2) && *i1 == *i2,
        (RamTerm::LoadLatVar(x1), RamTerm::LoadLatVar(x2)) => x1.eq_var(x2),
        (RamTerm::Meet(f1, a1, b1), RamTerm::Meet(f2, a2, b2)) => *f1 == *f2 && term_eq(a1, a2)
            && term_eq(b1, b2),
        (RamTerm::App0(f1), RamTerm::App0(f2)) => *f1 == *f2,
        (RamTerm::App1(f1, a1), RamTerm::App1(f2, a2)) => *f1 == *f2 && term_eq(a1, a2),
        (RamTerm::App2(f1, a1, b1), RamTerm::App2(f2, a2, b2)) => *f1 == *f2 && term_eq(a1, a2)
            && term_eq(b1, b2),
        (RamTerm::App3(f1, a1, b1, c1), RamTerm::App3(f2, a2, b2, c2)) => *f1 == *f2 && term_eq(
            a1,
            a2,
        ) && term_eq(b1, b2) && term_eq(c1, c2),
        (RamTerm::App4(f1, a1, b1, c1, d1), RamTerm::App4(f2, a2, b2, c2, d2)) => *f1 == *f2
            && term_eq(a1, a2) && term_eq(b1, b2) && term_eq(c1, c2) && term_eq(d1, d2),
        (RamTerm::App5(f1, a1, b1, c1, d1, e1), RamTerm::App5(f2, a2, b2, c2, d2, e2)) => *f1
            == *f2 && term_eq(a1, a2) && term_eq(b1, b2) && term_eq(c1, c2) && term_eq(d1, d2)
            && term_eq(e1, e2),
        _ => false,
    }
}

/// Structurally same terms have the same value: term evaluation reads only
/// the content of a term, never the identity of its strings.
pub proof fn lemma_term_eqv_eval<C: Callables>(c: &C, env: EnvV, a: RamTerm, b: RamTerm)
    requires
        term_eqv(a, b),
    ensures
        spec_eval_term(c, env, a) == spec_eval_term(c, env, b),
    decreases a,
{
    match (a, b) {
        (RamTerm::Meet(_, a1, b1), RamTerm::Meet(_, a2, b2)) => {
            lemma_term_eqv_eval(c, env, *a1, *a2);
            lemma_term_eqv_eval(c, env, *b1, *b2);
        },
        (RamTerm::App1(_, a1), RamTerm::App1(_, a2)) => {
            lemma_term_eqv_eval(c, env, *a1, *a2);
        },
        (RamTerm::App2(_, a1, b1), RamTerm::App2(_, a2, b2)) => {
            lemma_term_eqv_eval(c, env, *a1, *a2);
            lemma_term_eqv_eval(c, env, *b1, *b2);
        },
        (RamTerm::App3(_, a1, b1, c1), RamTerm::App3(_, a2, b2, c2)) => {
            lemma_term_eqv_eval(c, env, *a1, *a2);
            lemma_term_eqv_eval(c, env, *b1, *b2);
            lemma_term_eqv_eval(c, env, *c1, *c2);
        },
        (RamTerm::App4(_, a1, b1, c1, d1), RamTerm::App4(_, a2, b2, c2, d2)) => {
            lemma_term_eqv_eval(c, env, *a1, *a2);
            lemma_term_eqv_eval(c, env, *b1, *b2);
            lemma_term_eqv_eval(c, env, *c1, *c2);
            lemma_term_eqv_eval(c, env, *d1, *d2);
        },
        (RamTerm::App5(_, a1, b1, c1, d1, e1), RamTerm::App5(_, a2, b2, c2, d2, e2)) => {
            lemma_term_eqv_eval(c, env, *a1, *a2);
            lemma_term_eqv_eval(c, env, *b1, *b2);
            lemma_term_eqv_eval(c, env, *c1, *c2);
            lemma_term_eqv_eval(c, env, *d1, *d2);
            lemma_term_eqv_eval(c, env, *e1, *e2);
        },
        _ => {},
    }
}

/// Boolean function `f` compares `v` with itself favourably.
pub open spec fn leq_refl_at<C: Callables>(c: &C, f: int, v: ValueV) -> bool {
    c.bool_fn(f, seq![v, v])
}

/// The reflexivity the lattice caller contract promises: whenever the
/// simplifier would delete a lattice comparison of a term with itself, that
/// comparison's `leq` holds of every value compared with itself.
pub open spec fn taut_leq_true<C: Callables>(c: &C, e: BoolExp) -> bool {
    match e {
        BoolExp::Leq(f, t1, t2) => term_eqv(t1, t2) ==> forall|v: ValueV|
            #[trigger] leq_refl_at(c, f as int, v),
        _ => true,
    }
}

/// A deleted test was true wherever it evaluated at all: a deleted equality
/// compares a term with itself, and a deleted lattice comparison holds by
/// the reflexivity of its `leq`.
pub proof fn lemma_deleted_test_was_true<C: Callables>(c: &C, db: DbV, env: EnvV, e: BoolExp)
    requires
        !keep_exp(e),
        taut_leq_true(c, e),
        spec_eval_bool(c, db, env, e) is Ok,
    ensures
        spec_eval_bool(c, db, env, e) == Ok::<bool, EvalError>(true),
{
    match e {
        BoolExp::Eq(t1, t2) => {
            lemma_term_eqv_eval(c, env, t1, t2);
        },
        BoolExp::Leq(f, t1, t2) => {
            lemma_term_eqv_eval(c, env, t1, t2);
            match spec_eval_term(c, env, t1) {
                Ok(a) => {
                    assert(leq_refl_at(c, f as int, a));
                },
                Err(_) => {},
            }
        },
        _ => {},
    }
}

/// Tautology deletion seen from the front of the test list.
proof fn lemma_filter_keep_front(es: Seq<BoolExp>)
    requires
        es.len() > 0,
    ensures
        filter_keep(es) == if keep_exp(es[0]) {
            seq![es[0]] + filter_keep(es.skip(1))
        } else {
            filter_keep(es.skip(1))
        },
    decreases es.len(),
{
    if es.len() == 1 {
        assert(es.drop_last() =~= Seq::<BoolExp>::empty());
        assert(es.skip(1) =~= Seq::<BoolExp>::empty());
        assert(es.last() == es[0]);
        if keep_exp(es[0]) {
            assert(filter_keep(es) =~= seq![es[0]] + filter_keep(es.skip(1)));
        }
    } else {
        lemma_filter_keep_front(es.drop_last());
        assert(es.drop_last()[0] == es[0]);
        assert(es.skip(1).drop_last() =~= es.drop_last().skip(1));
        assert(es.skip(1).last() == es.last());
        if keep_exp(es[0]) {
            if keep_exp(es.last()) {
                assert((seq![es[0]] + filter_keep(es.drop_last().skip(1))).push(es.last())
                    =~= seq![es[0]] + filter_keep(es.drop_last().skip(1)).push(es.last()));
            }
        }
    }
}

/// The semantic half of tautology deletion: deleting the tautological tests
/// of a conjunction preserves any value the conjunction reaches, given the
/// reflexivity the lattice caller contract promises.  (The converse does
/// not hold in general: deleting an equality whose term evaluation faults
/// erases the fault, so a conjunction that faults may succeed after
/// deletion.)
pub proof fn lemma_filter_keep_preserves<C: Callables>(
    c: &C,
    db: DbV,
    env: EnvV,
    es: Seq<BoolExp>,
    b: bool,
)
    requires
        spec_eval_bools(c, db, env, es) == Ok::<bool, EvalError>(b),
        forall|i: int| 0 <= i < es.len() ==> taut_leq_true(c, #[trigger] es[i]),
    ensures
        spec_eval_bools(c, db, env, filter_keep(es)) == Ok::<bool, EvalError>(b),
    decreases es.len(),
{
    if es.len() > 0 {
        lemma_filter_keep_front(es);
        assert forall|i: int| 0 <= i < es.skip(1).len() implies taut_leq_true(
            c,
            #[trigger] es.skip(1)[i],
        ) by {
            assert(es.skip(1)[i] == es[i + 1]);
        }
        match spec_eval_bool(c, db, env, es[0]) {
            Ok(true) => {
                lemma_filter_keep_preserves(c, db, env, es.skip(1), b);
                if keep_exp(es[0]) {
                    let kept = seq![es[0]] + filter_keep(es.skip(1));
                    assert(kept[0] == es[0]);
                    assert(kept.skip(1) =~= filter_keep(es.skip(1)));
                }
            },
            Ok(false) => {
                if keep_exp(es[0]) {
                    let kept = seq![es[0]] + filter_keep(es.skip(1));
                    assert(kept[0] == es[0]);
                } else {
                    lemma_deleted_test_was_true(c, db, env, es[0]);
                }
            },
            Err(_) => {},
        }
    }
}

/// Whether a test survives simplification: a syntactic tautology — an
/// equality of a term with itself, or a lattice comparison of a term with
/// itself (reflexivity is part of the lattice's caller contract) — is
/// deleted.
pub open spec fn keep_exp(e: BoolExp) -> bool {
    match e {
        BoolExp::Eq(t1, t2) => !term_eqv(t1, t2),
        BoolExp::Leq(_, t1, t2) => !term_eqv(t1, t2),
        _ => true,
    }
}

/// The tests that survive simplification, in order.
pub open spec fn filter_keep(es: Seq<BoolExp>) -> Seq<BoolExp>
    decreases es.len(),
{
    if es.len() == 0 {
        Seq::empty()
    } else if keep_exp(es.last()) {
        filter_keep(es.drop_last()).push(es.last())
    } else {
        filter_keep(es.drop_last())
    }
}

/// How a simplified operation relates to its source: tautological tests
/// deleted, all else carried over.
pub open spec fn simplify_op_rel(op: RelOp, r: RelOp) -> bool
    decreases op,
{
    match (op, r) {
        (RelOp::Search(var, sym, body), RelOp::Search(var2, sym2, body2)) => var2 == var && sym2
            == sym && simplify_op_rel(*body, *body2),
        (RelOp::Query(var, sym, q, body), RelOp::Query(var2, sym2, q2, body2)) => var2 == var
            && sym2 == sym && q2@ == q@ && simplify_op_rel(*body, *body2),
        (RelOp::Functional(var, f, ts, body), RelOp::Functional(var2, f2, ts2, body2)) => var2
            == var && f2 == f && ts2@ == ts@ && simplify_op_rel(*body, *body2),
        (RelOp::Project(ts, sym), RelOp::Project(ts2, sym2)) => ts2@ == ts@ && sym2 == sym,
        (RelOp::If(test, then), RelOp::If(test2, then2)) => test2@ == filter_keep(test@)
            && simplify_op_rel(*then, *then2),
        _ => false,
    }
}

/// A loop that copies one whole relation into another: a search over `B`
/// whose body immediately projects exactly the searched tuple into `A`,
/// with `A` and `B` declared at the same arity.  Rewriting it to a bulk
/// merge is sound only when the destination is relational: a latticenal
/// destination merges values through its `lub`, which the projection
/// semantics must keep doing one tuple at a time.
pub open spec fn is_copy_loop(op: RelOp) -> bool {
    match op {
        RelOp::Search(var_b, rel_b, body) => match *body {
            RelOp::Project(tuple, rel_a) => {
                &&& rel_a.den() is Relational
                &&& rel_a.arity() == rel_b.arity()
                &&& rel_b.arity() >= 0
                &&& tuple@.len() == rel_b.arity()
                &&& forall|i: int|
                    0 <= i < tuple@.len() ==> match #[trigger] tuple@[i] {
                        RamTerm::RowLoad(v, j) => v@ == var_b@ && j == i,
                        _ => false,
                    }
            },
            _ => false,
        },
        _ => false,
    }
}

/// How a simplified statement relates to its source: tautological tests
/// deleted everywhere, and an `Insert` whose simplified operation copies a
/// whole relation into a relational destination becomes a bulk `Merge`.
pub open spec fn simplify_stmt_rel(s: RamStmt, r: RamStmt) -> bool
    decreases s,
{
    match s {
        RamStmt::Insert(op) => exists|op2: RelOp|
            #[trigger] simplify_op_rel(op, op2) && if is_copy_loop(op2) {
                match op2 {
                    RelOp::Search(_, rel_b, body) => match *body {
                        RelOp::Project(_, rel_a) => r == RamStmt::Merge(
                            Box::new(rel_b),
                            Box::new(rel_a),
                        ),
                        _ => false,
                    },
                    _ => false,
                }
            } else {
                r == RamStmt::Insert(op2)
            },
        RamStmt::Merge(a, b) => r == RamStmt::Merge(a, b),
        RamStmt::Assign(a, b) => r == RamStmt::Assign(a, b),
        RamStmt::Purge(a) => r == RamStmt::Purge(a),
        RamStmt::Sequence(xs) => match r {
            RamStmt::Sequence(ys) => ys@.len() == xs@.len() && forall|i: int|
                0 <= i < xs@.len() ==> simplify_stmt_rel(#[trigger] xs@[i], ys@[i]),
            _ => false,
        },
        RamStmt::Until(test, body) => match r {
            RamStmt::Until(test2, body2) => test2 == test && simplify_stmt_rel(*body, *body2),
            _ => false,
        },
        RamStmt::Comment(c) => r == RamStmt::Comment(c),
    }
}

/// A projection tuple that copies the whole row bound at depth zero.
pub open spec fn copy_tuple(tuple: Seq<RamTerm>) -> bool {
    forall|j: int|
        0 <= j < tuple.len() ==> #[trigger] tuple[j] == RamTerm::RowLoad(
            RowVar::Index(0),
            j as i32,
        )
}

/// Rows fit the relational discipline of a copy loop's source: every row is
/// as long as the projection and carries the default mark.
pub open spec fn rows_are_marks(rows: RowsV, width: int) -> bool {
    forall|k: int|
        0 <= k < rows.len() ==> (#[trigger] rows[k]).0.len() == width && rows[k].1
            == ValueV::Bool(false)
}

proof fn lemma_copy_loads_eval<C: Callables>(c: &C, env: EnvV, tuple: Seq<RamTerm>, n: int)
    requires
        copy_tuple(tuple),
        tuple.len() <= i32::MAX as int,
        0 <= n <= tuple.len(),
        env.0.len() > 0,
        env.0[0].len() == tuple.len(),
    ensures
        spec_eval_terms(c, env, tuple.take(n)) == Ok::<Seq<ValueV>, EvalError>(env.0[0].take(n)),
    decreases n,
{
    if n > 0 {
        lemma_copy_loads_eval(c, env, tuple, n - 1);
        assert(tuple.take(n).drop_last() =~= tuple.take(n - 1));
        assert(tuple.take(n).last() == tuple[n - 1]);
        assert(spec_eval_term(c, env, tuple[n - 1]) == Ok::<ValueV, EvalError>(
            env.0[0][n - 1],
        ));
        assert(env.0[0].take(n) =~= env.0[0].take(n - 1).push(env.0[0][n - 1]));
    } else {
        assert(tuple.take(0) =~= Seq::<RamTerm>::empty());
        assert(env.0[0].take(0) =~= Seq::<ValueV>::empty());
    }
}

proof fn lemma_copy_fold_merge<C: Callables>(
    c: &C,
    db: DbV,
    env: EnvV,
    rows: RowsV,
    tuple: Vec<RamTerm>,
    rel_a: RamSym,
)
    requires
        rel_a.den() is Relational,
        copy_tuple(tuple@),
        tuple@.len() <= i32::MAX as int,
        rows_are_marks(rows, tuple@.len() as int),
        env.0.len() > 0,
    ensures
        ({
            let r = spec_search_fold(c, db, env, 0, rows, RelOp::Project(tuple, rel_a));
            &&& r is Ok
            &&& r->Ok_0.0 == spec_merge_rel(db, rel_a.key(), rows)
        }),
    decreases rows.len(),
{
    if rows.len() > 0 {
        let env1 = (env.0.update(0, rows[0].0), env.1.update(0, rows[0].1));
        lemma_copy_loads_eval(c, env1, tuple@, tuple@.len() as int);
        assert(tuple@.take(tuple@.len() as int) =~= tuple@);
        assert(env1.0[0].take(tuple@.len() as int) =~= rows[0].0);
        let db2 = db.insert(
            rel_a.key(),
            rows_store(db_rows_or_empty(db, rel_a.key()), rows[0].0, ValueV::Bool(false)),
        );
        assert(rows[0].1 == ValueV::Bool(false));
        assert(spec_eval_terms(c, env1, tuple@) == Ok::<Seq<ValueV>, EvalError>(rows[0].0));
        assert(spec_eval_op(c, db, env1, RelOp::Project(tuple, rel_a)) == Ok::<
            (DbV, EnvV),
            EvalError,
        >((db2, env1)));
        assert(spec_merge_rel(db, rel_a.key(), rows) == spec_merge_rel(
            db2,
            rel_a.key(),
            rows.skip(1),
        ));
        assert forall|k: int| 0 <= k < rows.skip(1).len() implies (#[trigger] rows.skip(1)[k]).0.len()
            == tuple@.len() as int && rows.skip(1)[k].1 == ValueV::Bool(false) by {
            assert(rows.skip(1)[k] == rows[k + 1]);
        }
        lemma_copy_fold_merge(c, db2, env1, rows.skip(1), tuple, rel_a);
        assert(spec_search_fold(c, db, env, 0, rows, RelOp::Project(tuple, rel_a))
            == spec_search_fold(c, db2, env1, 0, rows.skip(1), RelOp::Project(tuple, rel_a)));
    }
}

/// The semantic half of the copy-loop rewrite, at the shapes the
/// interpreter actually runs (after lowering): a search over `B` whose body
/// projects exactly the searched row into a relational `A` computes the
/// same database as the bulk `Merge(B, A)`, provided `B` is itself
/// relational and its stored rows obey the relational discipline — each as
/// wide as the projection and carrying the default mark.  A latticenal `A`
/// is outside this law, which is why the rewrite must be suppressed there.
#[verifier::rlimit(100)]
#[verifier::spinoff_prover]
pub proof fn lemma_copy_loop_merge<C: Callables>(
    c: &C,
    db: DbV,
    tuple: Vec<RamTerm>,
    rel_b: RamSym,
    rel_a: RamSym,
    fuel: nat,
)
    requires
        rel_a.den() is Relational,
        rel_b.den() is Relational,
        copy_tuple(tuple@),
        tuple@.len() <= i32::MAX as int,
        rows_are_marks(db_rows_or_empty(db, rel_b.key()), tuple@.len() as int),
    ensures
        spec_eval_stmt(
            c,
            db,
            RamStmt::Insert(
                RelOp::Search(
                    RowVar::Index(0),
                    rel_b,
                    Box::new(RelOp::Project(tuple, rel_a)),
                ),
            ),
            fuel,
        ) == spec_eval_stmt(c, db, RamStmt::Merge(Box::new(rel_b), Box::new(rel_a)), fuel),
{
    let op = RelOp::Search(RowVar::Index(0), rel_b, Box::new(RelOp::Project(tuple, rel_a)));
    let env = empty_env(1);
    let srows = db_rows_or_empty(db, rel_b.key());
    assert(op_depth(RelOp::Project(tuple, rel_a)) == 0);
    assert(op_depth(op) == 1);
    assert(env.0.len() == 1 && env.1.len() == 1);
    lemma_copy_fold_merge(c, db, env, srows, tuple, rel_a);
    let r = spec_search_fold(c, db, env, 0, srows, RelOp::Project(tuple, rel_a));
    assert(r is Ok && r->Ok_0.0 == spec_merge_rel(db, rel_a.key(), srows));
    assert(spec_eval_op(c, db, env, op) == r);
    assert(spec_eval_stmt(c, db, RamStmt::Insert(op), fuel) == StepRes::Done(
        spec_merge_rel(db, rel_a.key(), srows),
    ));
    assert(spec_eval_stmt(c, db, RamStmt::Merge(Box::new(rel_b), Box::new(rel_a)), fuel)
        == StepRes::Done(spec_merge_rel(db, rel_a.key(), srows)));
}

/// Simplify one operation: delete tautological tests.
fn simplify_op(op: RelOp) -> (r: RelOp)
    ensures
        simplify_op_rel(op, r),
    decreases op,
{
    match op {
        RelOp::Search(var, sym, body) => {
            let body2 = simplify_op(*body);
            RelOp::Search(var, sym, Box::new(body2))
        },
        RelOp::Query(var, sym, q, body) => {
            let body2 = simplify_op(*body);
            RelOp::Query(var, sym, q, Box::new(body2))
        },
        RelOp::Functional(var, f, ts, body) => {
            let body2 = simplify_op(*body);
            RelOp::Functional(var, f, ts, Box::new(body2))
        },
        RelOp::Project(ts, sym) => RelOp::Project(ts, sym),
        RelOp::If(test, then) => {
            let ghost es0 = test@;
            let mut kept: Vec<BoolExp> = Vec::new();
            let mut rest = test;
            let mut idx: usize = 0;
            let total = rest.len();
            proof {
                assert(rest@ =~= es0.skip(0));
                assert(filter_keep(es0.take(0)) =~= Seq::<BoolExp>::empty());
            }
            while rest.len() > 0
                invariant
                    es0.len() == total,
                    0 <= idx <= es0.len(),
                    idx + rest@.len() == es0.len(),
                    rest@ == es0.skip(idx as int),
                    kept@ == filter_keep(es0.take(idx as int)),
                decreases rest@.len(),
            {
                let ghost i = idx as int;
                let e = rest.remove(0);
                proof {
                    assert(e == es0.skip(i)[0]);
                    assert(e == es0[i]);
                    assert(rest@ =~= es0.skip(i + 1));
                    assert(es0.take(i + 1).drop_last() =~= es0.take(i));
                    assert(es0.take(i + 1).last() == es0[i]);
                }
                let keep = match &e {
                    BoolExp::Eq(t1, t2) => !term_eq(t1, t2),
                    BoolExp::Leq(_, t1, t2) => !term_eq(t1, t2),
                    _ => true,
                };
                if keep {
                    kept.push(e);
                }
                idx = idx + 1;
            }
            proof {
                assert(es0.take(idx as int) =~= es0);
            }
            let then2 = simplify_op(*then);
            RelOp::If(kept, Box::new(then2))
        },
    }
}

/// Whether the simplified operation is a whole-relation copy loop.
#[verifier::loop_isolation(false)]
fn check_copy_loop(op: &RelOp) -> (r: bool)
    ensures
        r == is_copy_loop(*op),
{
    match op {
        RelOp::Search(var_b, rel_b, body) => match &**body {
            RelOp::Project(tuple, rel_a) => {
                if !crate::ram::into_denotation(rel_a).is_relational() {
                    return false;
                }
                let arity = crate::ram::arity_of(rel_b.clone());
                if crate::ram::arity_of(rel_a.clone()) != arity {
                    return false;
                }
                if arity < 0 {
                    return false;
                }
                if tuple.len() != arity as usize {
                    return false;
                }
                let mut i: usize = 0;
                while i < tuple.len()
                    invariant
                        0 <= i <= tuple@.len(),
                        forall|j: int|
                            0 <= j < i ==> match #[trigger] tuple@[j] {
                                RamTerm::RowLoad(v, jj) => v@ == var_b@ && jj == j,
                                _ => false,
                            },
                    decreases tuple@.len() - i,
                {
                    let ok = match &tuple[i] {
                        RamTerm::RowLoad(v, jj) => v.eq_var(var_b) && *jj >= 0 && (*jj as usize)
                            == i,
                        _ => false,
                    };
                    if !ok {
                        return false;
                    }
                    i = i + 1;
                }
                true
            },
            _ => false,
        },
        _ => false,
    }
}

/// Simplify one statement.
#[verifier::loop_isolation(false)]
fn simplify_helper(stmt: RamStmt) -> (r: Option<RamStmt>)
    ensures
        match r {
            Some(out) => simplify_stmt_rel(stmt, out),
            None => false,
        },
    decreases stmt,
{
    match stmt {
        RamStmt::Insert(op) => {
            let new_op = simplify_op(op);
            if check_copy_loop(&new_op) {
                match new_op {
                    RelOp::Search(_, rel_b, body) => match *body {
                        RelOp::Project(_, rel_a) => Some(
                            RamStmt::Merge(Box::new(rel_b), Box::new(rel_a)),
                        ),
                        _ => None,
                    },
                    _ => None,
                }
            } else {
                Some(RamStmt::Insert(new_op))
            }
        },
        RamStmt::Merge(a, b) => Some(RamStmt::Merge(a, b)),
        RamStmt::Assign(a, b) => Some(RamStmt::Assign(a, b)),
        RamStmt::Purge(a) => Some(RamStmt::Purge(a)),
        RamStmt::Sequence(xs) => {
            let ghost xs0 = xs@;
            let mut ys: Vec<RamStmt> = Vec::new();
            let mut rest = xs;
            proof {
                assert(rest@ =~= xs0.skip(0));
            }
            while rest.len() > 0
                invariant
                    ys@.len() + rest@.len() == xs0.len(),
                    rest@ == xs0.skip(ys@.len() as int),
                    forall|j: int|
                        0 <= j < ys@.len() ==> simplify_stmt_rel(#[trigger] xs0[j], ys@[j]),
                decreases rest@.len(),
            {
                let ghost done = ys@.len() as int;
                let s = rest.remove(0);
                proof {
                    assert(s == xs0[done]);
                    assert(rest@ =~= xs0.skip(done + 1));
                    assert(stmt->Sequence_0@ == xs0);
                    assert(s == stmt->Sequence_0@[done]);
                    assert(decreases_to!(stmt => s));
                }
                match simplify_helper(s) {
                    Some(s2) => {
                        ys.push(s2);
                    },
                    None => {
                        return None;
                    },
                }
            }
            Some(RamStmt::Sequence(ys))
        },
        RamStmt::Until(test, body) => {
            match simplify_helper(*body) {
                Some(body2) => Some(RamStmt::Until(test, Box::new(body2))),
                None => None,
            }
        },
        RamStmt::Comment(c) => Some(RamStmt::Comment(c)),
    }
}

/// Simplify a statement by deleting redundant code: tautological tests go,
/// and a loop that copies one relation into another relational one becomes
/// a bulk merge.
pub fn simplify_stmt(stmt: RamStmt) -> (r: RamStmt)
    ensures
        simplify_stmt_rel(stmt, r),
{
    match simplify_helper(stmt) {
        Some(out) => out,
        None => RamStmt::Sequence(Vec::new()),
    }
}

} // verus!
