use vstd::prelude::*;

use crate::callable::Callables;
use crate::database::DbV;
use crate::interpreter::{spec_eval_bool, EnvV};
use crate::ram::{BoolExp, RamStmt, RamTerm, RelOp, RowVar, RowVarV};

verus! {

/// Whether a term is ground with respect to the variables bound by an
/// outer loop: built from literals, applications and outer variables only.
pub open spec fn spec_term_ground(free: Set<RowVarV>, term: RamTerm) -> bool
    decreases term,
{
    match term {
        RamTerm::Lit(_) => true,
        RamTerm::RowLoad(var, _) => free.contains(var@),
        RamTerm::LoadLatVar(var) => free.contains(var@),
        RamTerm::Meet(_, t1, t2) => spec_term_ground(free, *t1) && spec_term_ground(free, *t2),
        RamTerm::App0(_) => true,
        RamTerm::App1(_, t1) => spec_term_ground(free, *t1),
        RamTerm::App2(_, t1, t2) => spec_term_ground(free, *t1) && spec_term_ground(free, *t2),
        RamTerm::App3(_, t1, t2, t3) => spec_term_ground(free, *t1) && spec_term_ground(free, *t2)
            && spec_term_ground(free, *t3),
        RamTerm::App4(_, t1, t2, t3, t4) => spec_term_ground(free, *t1) && spec_term_ground(
            free,
            *t2,
        ) && spec_term_ground(free, *t3) && spec_term_ground(free, *t4),
        RamTerm::App5(_, t1, t2, t3, t4, t5) => spec_term_ground(free, *t1) && spec_term_ground(
            free,
            *t2,
        ) && spec_term_ground(free, *t3) && spec_term_ground(free, *t4) && spec_term_ground(
            free,
            *t5,
        ),
    }
}

/// Whether every term of a test is ground: such a test can be hoisted past
/// the loop it sits in.
pub open spec fn spec_exp_ground(free: Set<RowVarV>, e: BoolExp) -> bool {
    match e {
        BoolExp::Empty(_) => true,
        BoolExp::NotMemberOf(ts, _) => forall|i: int|
            0 <= i < ts@.len() ==> spec_term_ground(free, #[trigger] ts@[i]),
        BoolExp::Eq(t1, t2) => spec_term_ground(free, t1) && spec_term_ground(free, t2),
        BoolExp::Leq(_, t1, t2) => spec_term_ground(free, t1) && spec_term_ground(free, t2),
        BoolExp::Guard0(_) => true,
        BoolExp::Guard1(_, t1) => spec_term_ground(free, t1),
        BoolExp::Guard2(_, t1, t2) => spec_term_ground(free, t1) && spec_term_ground(free, t2),
        BoolExp::Guard3(_, t1, t2, t3) => spec_term_ground(free, t1) && spec_term_ground(free, t2)
            && spec_term_ground(free, t3),
        BoolExp::Guard4(_, t1, t2, t3, t4) => spec_term_ground(free, t1) && spec_term_ground(
            free,
            t2,
        ) && spec_term_ground(free, t3) && spec_term_ground(free, t4),
        BoolExp::Guard5(_, t1, t2, t3, t4, t5) => spec_term_ground(free, t1) && spec_term_ground(
            free,
            t2,
        ) && spec_term_ground(free, t3) && spec_term_ground(free, t4) && spec_term_ground(
            free,
            t5,
        ),
    }
}

/// The set of variables a vector holds.
pub open spec fn vars_set(vs: Vec<RowVar>) -> Set<RowVarV> {
    vs.deep_view().to_set()
}

/// Whether the vector holds `var`.
fn contains_var(vs: &Vec<RowVar>, var: &RowVar) -> (r: bool)
    ensures
        r == vars_set(*vs).contains(var@),
{
    let mut i: usize = 0;
    while i < vs.len()
        invariant
            0 <= i <= vs@.len(),
            forall|j: int| 0 <= j < i ==> (#[trigger] vs@[j])@ != var@,
        decreases vs@.len() - i,
    {
        if vs[i].eq_var(var) {
            proof {
                assert(vs.deep_view()[i as int] == var@);
                assert(vs.deep_view().contains(var@));
            }
            return true;
        }
        i = i + 1;
    }
    proof {
        if vars_set(*vs).contains(var@) {
            let j = choose|j: int|
                0 <= j < vs.deep_view().len() && vs.deep_view()[j] == var@;
            assert((vs@[j])@ == var@);
        }
    }
    false
}

/// A term is ground if it reads only variables bound by an outer loop.
pub fn is_term_ground(free_vars: &Vec<RowVar>, term: &RamTerm) -> (r: bool)
    ensures
        r == spec_term_ground(vars_set(*free_vars), *term),
    decreases *term,
{
    match term {
        RamTerm::Lit(_) => true,
        RamTerm::RowLoad(var, _) => contains_var(free_vars, var),
        RamTerm::LoadLatVar(var) => contains_var(free_vars, var),
        RamTerm::Meet(_, t1, t2) => is_term_ground(free_vars, t1) && is_term_ground(free_vars, t2),
        RamTerm::App0(_) => true,
        RamTerm::App1(_, t1) => is_term_ground(free_vars, t1),
        RamTerm::App2(_, t1, t2) => is_term_ground(free_vars, t1) && is_term_ground(free_vars, t2),
        RamTerm::App3(_, t1, t2, t3) => is_term_ground(free_vars, t1) && is_term_ground(
            free_vars,
            t2,
        ) && is_term_ground(free_vars, t3),
        RamTerm::App4(_, t1, t2, t3, t4) => is_term_ground(free_vars, t1) && is_term_ground(
            free_vars,
            t2,
        ) && is_term_ground(free_vars, t3) && is_term_ground(free_vars, t4),
        RamTerm::App5(_, t1, t2, t3, t4, t5) => is_term_ground(free_vars, t1) && is_term_ground(
            free_vars,
            t2,
        ) && is_term_ground(free_vars, t3) && is_term_ground(free_vars, t4) && is_term_ground(
            free_vars,
            t5,
        ),
    }
}

/// A test is ground if all its terms are.
#[verifier::loop_isolation(false)]
pub fn is_exp_ground(free_vars: &Vec<RowVar>, exp: &BoolExp) -> (r: bool)
    ensures
        r == spec_exp_ground(vars_set(*free_vars), *exp),
{
    match exp {
        BoolExp::Empty(_) => true,
        BoolExp::NotMemberOf(terms, _) => {
            let mut i: usize = 0;
            while i < terms.len()
                invariant
                    0 <= i <= terms@.len(),
                    forall|j: int|
                        0 <= j < i ==> spec_term_ground(vars_set(*free_vars), #[trigger] terms@[j]),
                decreases terms@.len() - i,
            {
                if !is_term_ground(free_vars, &terms[i]) {
                    proof {
                        assert(!spec_term_ground(vars_set(*free_vars), terms@[i as int]));
                    }
                    return false;
                }
                i = i + 1;
            }
            true
        },
        BoolExp::Eq(t1, t2) => is_term_ground(free_vars, t1) && is_term_ground(free_vars, t2),
        BoolExp::Leq(_, t1, t2) => is_term_ground(free_vars, t1) && is_term_ground(free_vars, t2),
        BoolExp::Guard0(_) => true,
        BoolExp::Guard1(_, t1) => is_term_ground(free_vars, t1),
        BoolExp::Guard2(_, t1, t2) => is_term_ground(free_vars, t1) && is_term_ground(
            free_vars,
            t2,
        ),
        BoolExp::Guard3(_, t1, t2, t3) => is_term_ground(free_vars, t1) && is_term_ground(
            free_vars,
            t2,
        ) && is_term_ground(free_vars, t3),
        BoolExp::Guard4(_, t1, t2, t3, t4) => is_term_ground(free_vars, t1) && is_term_ground(
            free_vars,
            t2,
        ) && is_term_ground(free_vars, t3) && is_term_ground(free_vars, t4),
        BoolExp::Guard5(_, t1, t2, t3, t4, t5) => is_term_ground(free_vars, t1) && is_term_ground(
            free_vars,
            t2,
        ) && is_term_ground(free_vars, t3) && is_term_ground(free_vars, t4) && is_term_ground(
            free_vars,
            t5,
        ),
    }
}

/// Canonicalize an equality for the loop variable `var`: put the newly
/// bound variable on the left-hand side, and a literal on the right.
pub open spec fn spec_canon(var: RowVar, e: BoolExp) -> BoolExp {
    match e {
        BoolExp::Eq(t1, t2) => match (t1, t2) {
            (RamTerm::RowLoad(r1, i), RamTerm::RowLoad(r2, j)) => if r2@ == var@ {
                BoolExp::Eq(RamTerm::RowLoad(r2, j), RamTerm::RowLoad(r1, i))
            } else {
                BoolExp::Eq(RamTerm::RowLoad(r1, i), RamTerm::RowLoad(r2, j))
            },
            (RamTerm::Lit(v), RamTerm::RowLoad(r, i)) => BoolExp::Eq(
                RamTerm::RowLoad(r, i),
                RamTerm::Lit(v),
            ),
            (a, b) => BoolExp::Eq(a, b),
        },
        _ => e,
    }
}

/// Canonicalizing an equality preserves its value wherever it evaluates at
/// all: canonicalization only swaps the two sides of an equality, and value
/// equality is symmetric.  (On a faulting equality the sides' two faults may
/// swap, which is why the rewritten test is only pinned where the original
/// evaluates.)
pub proof fn lemma_canon_preserves<C: Callables>(
    c: &C,
    db: DbV,
    env: EnvV,
    var: RowVar,
    e: BoolExp,
)
    requires
        spec_eval_bool(c, db, env, e) is Ok,
    ensures
        spec_eval_bool(c, db, env, spec_canon(var, e)) == spec_eval_bool(c, db, env, e),
{
}

/// Whether a canonical test is an equality binding `var`'s tuple: the
/// left-hand side loads from `var`, the right-hand side is independent of
/// it.
pub open spec fn spec_is_var_eq(var: RowVar, e: BoolExp) -> bool {
    match e {
        BoolExp::Eq(t1, t2) => match (t1, t2) {
            (RamTerm::RowLoad(r1, _), RamTerm::RowLoad(r2, _)) => r1@ != r2@ && r1@ == var@,
            (RamTerm::RowLoad(r, _), RamTerm::Lit(_)) => r@ == var@,
            _ => false,
        },
        _ => false,
    }
}

/// The position a canonical variable equality constrains, and its
/// right-hand side.  A test of any other shape sits at a position no prefix
/// ever selects.
pub open spec fn eq_parts(e: BoolExp) -> (int, RamTerm) {
    match e {
        BoolExp::Eq(t1, t2) => match t1 {
            RamTerm::RowLoad(_, j) => (j as int, t2),
            _ => (-1, t2),
        },
        _ => (-1, RamTerm::App0(0)),
    }
}

/// Keep the tests that are ground, in order.
pub open spec fn filter_ground(free: Set<RowVarV>, es: Seq<BoolExp>) -> Seq<BoolExp>
    decreases es.len(),
{
    if es.len() == 0 {
        Seq::empty()
    } else if spec_exp_ground(free, es.last()) {
        filter_ground(free, es.drop_last()).push(es.last())
    } else {
        filter_ground(free, es.drop_last())
    }
}

/// Keep the tests that are not ground, in order.
pub open spec fn filter_not_ground(free: Set<RowVarV>, es: Seq<BoolExp>) -> Seq<BoolExp>
    decreases es.len(),
{
    if es.len() == 0 {
        Seq::empty()
    } else if !spec_exp_ground(free, es.last()) {
        filter_not_ground(free, es.drop_last()).push(es.last())
    } else {
        filter_not_ground(free, es.drop_last())
    }
}

/// Keep the canonical variable equalities, in order.
pub open spec fn filter_var_eq(var: RowVar, es: Seq<BoolExp>) -> Seq<BoolExp>
    decreases es.len(),
{
    if es.len() == 0 {
        Seq::empty()
    } else if spec_is_var_eq(var, es.last()) {
        filter_var_eq(var, es.drop_last()).push(es.last())
    } else {
        filter_var_eq(var, es.drop_last())
    }
}

/// Keep everything that is not a canonical variable equality, in order.
pub open spec fn filter_not_var_eq(var: RowVar, es: Seq<BoolExp>) -> Seq<BoolExp>
    decreases es.len(),
{
    if es.len() == 0 {
        Seq::empty()
    } else if !spec_is_var_eq(var, es.last()) {
        filter_not_var_eq(var, es.drop_last()).push(es.last())
    } else {
        filter_not_var_eq(var, es.drop_last())
    }
}

/// All tests canonicalized for `var`, in order.
pub open spec fn canon_all(var: RowVar, es: Seq<BoolExp>) -> Seq<BoolExp> {
    es.map_values(|e: BoolExp| spec_canon(var, e))
}

/// A prefix entry's position and right-hand side are those of one of the
/// variable equalities.
pub open spec fn prefix_entry_from(var_q: Seq<BoolExp>, entry: (i32, RamTerm)) -> bool {
    exists|i: int|
        0 <= i < var_q.len() && eq_parts(#[trigger] var_q[i]) == (entry.0 as int, entry.1)
}

/// How a prefix query and leftover tests relate to the canonical variable
/// equalities they were split from: the prefix constrains attribute
/// positions `0..k` contiguously, each entry's position and right-hand side
/// taken from one of the equalities, and together with the leftovers it
/// accounts for all of them.  The prefix is maximal: no leftover equality
/// constrains the next attribute position (short of the machine bound on
/// positions), so in particular an equality on attribute `0` guarantees a
/// non-empty prefix.
pub open spec fn prefix_split(
    var_q: Seq<BoolExp>,
    prefix: Seq<(i32, RamTerm)>,
    rest: Seq<BoolExp>,
) -> bool {
    &&& prefix.len() + rest.len() == var_q.len()
    &&& forall|k: int| 0 <= k < prefix.len() ==> (#[trigger] prefix[k]).0 == k
    &&& forall|k: int| 0 <= k < prefix.len() ==> prefix_entry_from(var_q, #[trigger] prefix[k])
    &&& forall|i: int| 0 <= i < rest.len() ==> var_q.contains(#[trigger] rest[i])
    &&& prefix.len() < i32::MAX as int ==> forall|i: int|
        0 <= i < rest.len() ==> eq_parts(#[trigger] rest[i]).0 != prefix.len()
}

/// How a hoisted and query-rewritten operation relates to its source.  The
/// tests hoisted out of `op` are those of its `If` nodes that are ground
/// with respect to `free`; each loop keeps the non-ground tests of its body
/// after trying to turn the loop variable's canonical prefix equalities
/// into an indexed prefix query.
pub open spec fn hoist_rel(free: Set<RowVarV>, op: RelOp, out: RelOp, hoisted: Seq<BoolExp>) -> bool
    decreases op,
{
    match op {
        RelOp::Search(var, sym, body) => exists|inner: RelOp, inner_h: Seq<BoolExp>|
            {
                &&& hoist_rel(free.insert(var@), *body, inner, inner_h)
                &&& #[trigger] search_assemble(free, var, sym, inner, inner_h, out, hoisted)
            },
        RelOp::Query(_, _, _, _) => out == op && hoisted == Seq::<BoolExp>::empty(),
        RelOp::Functional(_, _, _, _) => out == op && hoisted == Seq::<BoolExp>::empty(),
        RelOp::Project(_, _) => out == op && hoisted == Seq::<BoolExp>::empty(),
        RelOp::If(test, then) => exists|inner: RelOp, inner_h: Seq<BoolExp>|
            {
                &&& hoist_rel(free, *then, inner, inner_h)
                &&& #[trigger] if_assemble(test@, inner, inner_h, out, hoisted)
            },
    }
}

/// Reassemble one guard after its body was rewritten: the body replaces the
/// guard node and all its tests join the hoisted pool.
pub open spec fn if_assemble(
    test: Seq<BoolExp>,
    inner: RelOp,
    inner_h: Seq<BoolExp>,
    out: RelOp,
    hoisted: Seq<BoolExp>,
) -> bool {
    out == inner && hoisted == test + inner_h
}

/// Reassemble one search after its body was rewritten: ground tests are
/// hoisted to the caller, the loop variable's contiguous prefix equalities
/// become a prefix query, and whatever tests remain guard the body.
pub open spec fn search_assemble(
    free: Set<RowVarV>,
    var: RowVar,
    sym: crate::ram::RamSym,
    inner: RelOp,
    inner_h: Seq<BoolExp>,
    out: RelOp,
    hoisted: Seq<BoolExp>,
) -> bool {
    let ground = filter_ground(free, inner_h);
    let notground = filter_not_ground(free, inner_h);
    let canon = canon_all(var, notground);
    let var_q = filter_var_eq(var, canon);
    let rest1 = filter_not_var_eq(var, canon);
    &&& hoisted == ground
    &&& exists|prefix: Seq<(i32, RamTerm)>, rest2: Seq<BoolExp>|
        {
            &&& #[trigger] prefix_split(var_q, prefix, rest2)
            &&& ({
                let test = rest1 + rest2;
                if prefix.len() == 0 {
                    match out {
                        RelOp::Search(var2, sym2, body2) => var2 == var && sym2 == sym && (if test.len() == 0 {
                            *body2 == inner
                        } else {
                            match *body2 {
                                RelOp::If(tv, inner2) => tv@ == test && *inner2 == inner,
                                _ => false,
                            }
                        }),
                        _ => false,
                    }
                } else {
                    match out {
                        RelOp::Query(var2, sym2, q2, body2) => var2 == var && sym2 == sym && q2@
                            == prefix && (if test.len() == 0 {
                            *body2 == inner
                        } else {
                            match *body2 {
                                RelOp::If(tv, inner2) => tv@ == test && *inner2 == inner,
                                _ => false,
                            }
                        }),
                        _ => false,
                    }
                }
            })
        }
}

/// Canonicalize one equality for the loop variable `var`.
fn canon_exp(var: &RowVar, e: BoolExp) -> (r: BoolExp)
    ensures
        r == spec_canon(*var, e),
{
    match e {
        BoolExp::Eq(t1, t2) => match (t1, t2) {
            (RamTerm::RowLoad(r1, i), RamTerm::RowLoad(r2, j)) => {
                if r2.eq_var(var) {
                    BoolExp::Eq(RamTerm::RowLoad(r2, j), RamTerm::RowLoad(r1, i))
                } else {
                    BoolExp::Eq(RamTerm::RowLoad(r1, i), RamTerm::RowLoad(r2, j))
                }
            },
            (RamTerm::Lit(v), RamTerm::RowLoad(r, i)) => BoolExp::Eq(
                RamTerm::RowLoad(r, i),
                RamTerm::Lit(v),
            ),
            (a, b) => BoolExp::Eq(a, b),
        },
        _ => e,
    }
}

/// Whether a canonical test is an equality binding `var`'s tuple.
fn is_var_eq(var: &RowVar, e: &BoolExp) -> (r: bool)
    ensures
        r == spec_is_var_eq(*var, *e),
{
    match e {
        BoolExp::Eq(t1, t2) => match (t1, t2) {
            (RamTerm::RowLoad(r1, _), RamTerm::RowLoad(r2, _)) => !r1.eq_var(r2) && r1.eq_var(var),
            (RamTerm::RowLoad(r, _), RamTerm::Lit(_)) => r.eq_var(var),
            _ => false,
        },
        _ => false,
    }
}

/// The position of the first equality constraining attribute `k`, if any.
fn find_eq_at(remaining: &Vec<BoolExp>, k: usize) -> (r: Option<usize>)
    ensures
        match r {
            Some(p) => 0 <= p < remaining@.len() && eq_parts(remaining@[p as int]).0 == k,
            None => forall|i: int|
                0 <= i < remaining@.len() ==> eq_parts(#[trigger] remaining@[i]).0 != k,
        },
{
    let mut p: usize = 0;
    while p < remaining.len()
        invariant
            0 <= p <= remaining@.len(),
            forall|i: int| 0 <= i < p ==> eq_parts(#[trigger] remaining@[i]).0 != k,
        decreases remaining@.len() - p,
    {
        let hit = match &remaining[p] {
            BoolExp::Eq(t1, _) => match t1 {
                RamTerm::RowLoad(_, j) => *j >= 0 && (*j as usize) == k,
                _ => false,
            },
            _ => false,
        };
        if hit {
            return Some(p);
        }
        p = p + 1;
    }
    None
}

/// Hoist and query-rewrite one operation.  Returns the rewritten operation
/// together with the tests that can move out past the enclosing loop.
#[verifier::loop_isolation(false)]
#[verifier::rlimit(60)]
#[verifier::spinoff_prover]
pub fn query_op(free_vars: &Vec<RowVar>, op: RelOp) -> (r: (RelOp, Vec<BoolExp>))
    ensures
        hoist_rel(vars_set(*free_vars), op, r.0, r.1@),
    decreases op,
{
    match op {
        RelOp::Search(var, ram_sym, body) => {
            let ghost var0 = var;
            let ghost sym0 = ram_sym;
            let ghost body0 = *body;
            let mut free2 = clone_vars(free_vars);
            free2.push(var.clone());
            proof {
                assert(free2.deep_view() =~= free_vars.deep_view().push(var@));
                lemma_vars_set_push(free_vars.deep_view(), free2.deep_view(), var@);
            }
            let (inner, inner_ground) = query_op(&free2, *body);
            let ghost innerg = inner_ground@;
            let ghost inner0 = inner;

            // Partition the inner tests into ground and non-ground.
            let mut ground: Vec<BoolExp> = Vec::new();
            let mut notground: Vec<BoolExp> = Vec::new();
            let mut rest = inner_ground;
            let mut idx: usize = 0;
            let total = rest.len();
            proof {
                assert(rest@ =~= innerg.skip(0));
                assert(filter_ground(vars_set(*free_vars), innerg.take(0)) =~= Seq::<
                    BoolExp,
                >::empty());
                assert(filter_not_ground(vars_set(*free_vars), innerg.take(0)) =~= Seq::<
                    BoolExp,
                >::empty());
            }
            while rest.len() > 0
                invariant
                    innerg.len() == total,
                    0 <= idx <= innerg.len(),
                    idx + rest@.len() == innerg.len(),
                    rest@ == innerg.skip(idx as int),
                    ground@ == filter_ground(vars_set(*free_vars), innerg.take(idx as int)),
                    notground@ == filter_not_ground(
                        vars_set(*free_vars),
                        innerg.take(idx as int),
                    ),
                decreases rest@.len(),
            {
                let ghost i = idx as int;
                let e = rest.remove(0);
                proof {
                    assert(e == innerg.skip(i)[0]);
                    assert(e == innerg[i]);
                    assert(rest@ =~= innerg.skip(i + 1));
                    assert(innerg.take(i + 1).drop_last() =~= innerg.take(i));
                    assert(innerg.take(i + 1).last() == innerg[i]);
                }
                if is_exp_ground(free_vars, &e) {
                    ground.push(e);
                } else {
                    notground.push(e);
                }
                idx = idx + 1;
            }
            proof {
                assert(innerg.take(idx as int) =~= innerg);
            }

            // Canonicalize the non-ground tests for the loop variable, then
            // split off its equalities.
            let ghost ng = notground@;
            let mut var_q: Vec<BoolExp> = Vec::new();
            let mut rest1: Vec<BoolExp> = Vec::new();
            let mut rest = notground;
            let mut idx: usize = 0;
            let total = rest.len();
            proof {
                assert(rest@ =~= ng.skip(0));
                assert(filter_var_eq(var0, canon_all(var0, ng.take(0))) =~= Seq::<
                    BoolExp,
                >::empty());
                assert(filter_not_var_eq(var0, canon_all(var0, ng.take(0))) =~= Seq::<
                    BoolExp,
                >::empty());
            }
            while rest.len() > 0
                invariant
                    ng.len() == total,
                    0 <= idx <= ng.len(),
                    idx + rest@.len() == ng.len(),
                    rest@ == ng.skip(idx as int),
                    var_q@ == filter_var_eq(var0, canon_all(var0, ng.take(idx as int))),
                    rest1@ == filter_not_var_eq(var0, canon_all(var0, ng.take(idx as int))),
                decreases rest@.len(),
            {
                let ghost i = idx as int;
                let e = rest.remove(0);
                proof {
                    assert(e == ng.skip(i)[0]);
                    assert(e == ng[i]);
                    assert(rest@ =~= ng.skip(i + 1));
                    assert(canon_all(var0, ng.take(i + 1)).drop_last() =~= canon_all(
                        var0,
                        ng.take(i),
                    ));
                    assert(canon_all(var0, ng.take(i + 1)).last() == spec_canon(var0, ng[i]));
                }
                let c = canon_exp(&var, e);
                if is_var_eq(&var, &c) {
                    var_q.push(c);
                } else {
                    rest1.push(c);
                }
                idx = idx + 1;
            }
            proof {
                assert(ng.take(idx as int) =~= ng);
            }

            // Extract the longest contiguous prefix of attribute equalities.
            let ghost vq = var_q@;
            let mut prefix: Vec<(i32, RamTerm)> = Vec::new();
            let mut remaining = var_q;
            proof {
                assert(forall|i: int|
                    0 <= i < remaining@.len() ==> vq.contains(#[trigger] remaining@[i]));
            }
            let mut done = false;
            while !done
                invariant
                    prefix@.len() + remaining@.len() == vq.len(),
                    forall|k: int| 0 <= k < prefix@.len() ==> (#[trigger] prefix@[k]).0 == k,
                    forall|k: int|
                        0 <= k < prefix@.len() ==> prefix_entry_from(vq, #[trigger] prefix@[k]),
                    forall|i: int|
                        0 <= i < remaining@.len() ==> vq.contains(#[trigger] remaining@[i]),
                    done ==> (prefix@.len() >= i32::MAX as int || forall|i: int|
                        0 <= i < remaining@.len() ==> eq_parts(#[trigger] remaining@[i]).0
                            != prefix@.len()),
                decreases remaining@.len(), (if done {
                    0int
                } else {
                    1int
                }),
            {
                let k = prefix.len();
                if k >= i32::MAX as usize {
                    done = true;
                } else {
                    match find_eq_at(&remaining, k) {
                        None => {
                            done = true;
                        },
                        Some(p) => {
                            let ghost rpre = remaining@;
                            let e = remaining.remove(p);
                            proof {
                                assert(e == rpre[p as int]);
                                assert(vq.contains(e));
                                assert forall|i: int|
                                    0 <= i < remaining@.len() implies vq.contains(
                                    #[trigger] remaining@[i],
                                ) by {
                                    if i < p {
                                        assert(remaining@[i] == rpre[i]);
                                    } else {
                                        assert(remaining@[i] == rpre[i + 1]);
                                    }
                                }
                            }
                            match e {
                                BoolExp::Eq(_, rhs) => {
                                    let ghost ppre = prefix@;
                                    prefix.push((k as i32, rhs));
                                    proof {
                                        let i = choose|i: int| 0 <= i < vq.len() && vq[i] == e;
                                        assert(eq_parts(vq[i]) == (k as int, prefix@.last().1));
                                        assert(prefix_entry_from(vq, prefix@.last()));
                                        assert forall|kk: int| 0 <= kk < prefix@.len()
                                            implies prefix_entry_from(
                                            vq,
                                            #[trigger] prefix@[kk],
                                        ) by {
                                            if kk < ppre.len() {
                                                assert(prefix@[kk] == ppre[kk]);
                                            } else {
                                                assert(prefix@[kk] == prefix@.last());
                                            }
                                        }
                                    }
                                },
                                _ => {
                                    proof {
                                        lemma_filter_var_eq_all(var0, canon_all(var0, ng));
                                        let i = choose|i: int| 0 <= i < vq.len() && vq[i] == e;
                                        assert(spec_is_var_eq(var0, e));
                                        assert(false);
                                    }
                                    return (RelOp::Project(Vec::new(), ram_sym), Vec::new());
                                },
                            }
                        },
                    }
                }
            }

            // Reassemble: remaining equalities and other tests guard the
            // body; ground tests move out.
            let ghost rest2v = remaining@;
            let mut test = rest1;
            test.append(&mut remaining);
            proof {
                assert(test@ =~= filter_not_var_eq(var0, canon_all(var0, ng)) + rest2v);
                assert(prefix@.len() + rest2v.len() == vq.len());
                assert(forall|k: int| 0 <= k < prefix@.len() ==> (#[trigger] prefix@[k]).0 == k);
                assert(forall|k: int|
                    0 <= k < prefix@.len() ==> prefix_entry_from(vq, #[trigger] prefix@[k]));
                assert(forall|i: int| 0 <= i < rest2v.len() ==> vq.contains(#[trigger] rest2v[i]));
                assert(prefix_split(vq, prefix@, rest2v));
            }
            let out = if prefix.len() == 0 {
                if test.len() == 0 {
                    RelOp::Search(var, ram_sym, Box::new(inner))
                } else {
                    RelOp::Search(var, ram_sym, Box::new(RelOp::If(test, Box::new(inner))))
                }
            } else {
                if test.len() == 0 {
                    RelOp::Query(var, ram_sym, prefix, Box::new(inner))
                } else {
                    RelOp::Query(
                        var,
                        ram_sym,
                        prefix,
                        Box::new(RelOp::If(test, Box::new(inner))),
                    )
                }
            };
            proof {
                assert(search_assemble(
                    vars_set(*free_vars),
                    var0,
                    sym0,
                    inner0,
                    innerg,
                    out,
                    ground@,
                ));
                assert(hoist_rel(vars_set(free2), body0, inner0, innerg));
                assert(vars_set(free2) == vars_set(*free_vars).insert(var0@));
                assert(hoist_rel(vars_set(*free_vars).insert(var0@), body0, inner0, innerg));
                assert(op is Search);
                assert(op->Search_0 == var0);
                assert(op->Search_1 == sym0);
                assert(*op->Search_2 == body0);
                assert(exists|inner: RelOp, inner_h: Seq<BoolExp>|
                    {
                        &&& hoist_rel(
                            vars_set(*free_vars).insert((op->Search_0)@),
                            *op->Search_2,
                            inner,
                            inner_h,
                        )
                        &&& #[trigger] search_assemble(
                            vars_set(*free_vars),
                            op->Search_0,
                            op->Search_1,
                            inner,
                            inner_h,
                            out,
                            ground@,
                        )
                    }) by {
                    assert(hoist_rel(
                        vars_set(*free_vars).insert((op->Search_0)@),
                        *op->Search_2,
                        inner0,
                        innerg,
                    ));
                    assert(search_assemble(
                        vars_set(*free_vars),
                        op->Search_0,
                        op->Search_1,
                        inner0,
                        innerg,
                        out,
                        ground@,
                    ));
                }
                assert(hoist_rel(vars_set(*free_vars), op, out, ground@));
            }
            (out, ground)
        },
        RelOp::Query(a, b, c, d) => {
            let none: Vec<BoolExp> = Vec::new();
            proof {
                assert(none@ =~= Seq::<BoolExp>::empty());
            }
            (RelOp::Query(a, b, c, d), none)
        },
        RelOp::Functional(a, b, c, d) => {
            let none: Vec<BoolExp> = Vec::new();
            proof {
                assert(none@ =~= Seq::<BoolExp>::empty());
            }
            (RelOp::Functional(a, b, c, d), none)
        },
        RelOp::Project(a, b) => {
            let none: Vec<BoolExp> = Vec::new();
            proof {
                assert(none@ =~= Seq::<BoolExp>::empty());
            }
            (RelOp::Project(a, b), none)
        },
        RelOp::If(test, then) => {
            let ghost then0 = *then;
            let ghost test0 = test@;
            let (inner, inner_h) = query_op(free_vars, *then);
            let ghost inner0 = inner;
            let ghost innerh = inner_h@;
            let mut tv = test;
            let mut ih = inner_h;
            tv.append(&mut ih);
            proof {
                assert(tv@ == test0 + innerh);
                assert(op is If);
                assert((op->If_0)@ == test0);
                assert(*op->If_1 == then0);
                assert(hoist_rel(vars_set(*free_vars), then0, inner0, innerh));
                assert(exists|inner2: RelOp, inner_h2: Seq<BoolExp>|
                    {
                        &&& hoist_rel(vars_set(*free_vars), *op->If_1, inner2, inner_h2)
                        &&& #[trigger] if_assemble((op->If_0)@, inner2, inner_h2, inner, tv@)
                    }) by {
                    assert(hoist_rel(vars_set(*free_vars), *op->If_1, inner0, innerh));
                    assert(if_assemble((op->If_0)@, inner0, innerh, inner, tv@));
                }
                assert(hoist_rel(vars_set(*free_vars), op, inner, tv@));
            }
            (inner, tv)
        },
    }
}

/// Copy a vector of variables.
fn clone_vars(vs: &Vec<RowVar>) -> (r: Vec<RowVar>)
    ensures
        r@ == vs@,
{
    let mut r: Vec<RowVar> = Vec::new();
    let mut i: usize = 0;
    while i < vs.len()
        invariant
            0 <= i <= vs@.len(),
            r@ == vs@.take(i as int),
        decreases vs@.len() - i,
    {
        r.push(vs[i].clone());
        proof {
            assert(r@ =~= vs@.take(i as int + 1));
        }
        i = i + 1;
    }
    proof {
        assert(vs@.take(vs@.len() as int) =~= vs@);
    }
    r
}

/// Every test the variable-equality filter keeps is a variable equality.
proof fn lemma_filter_var_eq_all(var: RowVar, es: Seq<BoolExp>)
    ensures
        forall|i: int|
            0 <= i < filter_var_eq(var, es).len() ==> spec_is_var_eq(
                var,
                #[trigger] filter_var_eq(var, es)[i],
            ),
    decreases es.len(),
{
    if es.len() > 0 {
        lemma_filter_var_eq_all(var, es.drop_last());
        let pre = filter_var_eq(var, es.drop_last());
        assert forall|i: int|
            0 <= i < filter_var_eq(var, es).len() implies spec_is_var_eq(
            var,
            #[trigger] filter_var_eq(var, es)[i],
        ) by {
            if spec_is_var_eq(var, es.last()) {
                assert(filter_var_eq(var, es) == pre.push(es.last()));
                if i < pre.len() {
                    assert(filter_var_eq(var, es)[i] == pre[i]);
                } else {
                    assert(filter_var_eq(var, es)[i] == es.last());
                }
            }
        }
    }
}

/// Pushing a variable adds exactly it to the set of variables.
proof fn lemma_vars_set_push(s: Seq<RowVarV>, s2: Seq<RowVarV>, x: RowVarV)
    requires
        s2 == s.push(x),
    ensures
        s2.to_set() == s.to_set().insert(x),
{
    assert forall|y: RowVarV| #[trigger] s2.to_set().contains(y) implies s.to_set().contains(y) || y
        == x by {
        let i = choose|i: int| 0 <= i < s2.len() && s2[i] == y;
        if i < s.len() {
            assert(s[i] == y);
        }
    }
    assert forall|y: RowVarV| s.to_set().contains(y) implies #[trigger] s2.to_set().contains(y) by {
        let i = choose|i: int| 0 <= i < s.len() && s[i] == y;
        assert(s2[i] == y);
    }
    assert(s2[s.len() as int] == x);
    assert(s2.to_set().contains(x));
    assert(s2.to_set() =~= s.to_set().insert(x));
}

/// How a hoisted and query-rewritten statement relates to its source: each
/// `Insert`'s operation is rewritten with no outer variables, any tests
/// hoisted all the way out guarding the whole operation; other statements
/// keep their shape.
pub open spec fn query_stmt_rel(s: RamStmt, r: RamStmt) -> bool
    decreases s,
{
    match s {
        RamStmt::Insert(op) => exists|inner: RelOp, ground: Seq<BoolExp>|
            {
                &&& #[trigger] hoist_rel(Set::empty(), op, inner, ground)
                &&& if ground.len() == 0 {
                    r == RamStmt::Insert(inner)
                } else {
                    match r {
                        RamStmt::Insert(op2) => match op2 {
                            RelOp::If(tv, inner2) => tv@ == ground && *inner2 == inner,
                            _ => false,
                        },
                        _ => false,
                    }
                }
            },
        RamStmt::Merge(a, b) => r == RamStmt::Merge(a, b),
        RamStmt::Assign(a, b) => r == RamStmt::Assign(a, b),
        RamStmt::Purge(a) => r == RamStmt::Purge(a),
        RamStmt::Sequence(xs) => match r {
            RamStmt::Sequence(ys) => ys@.len() == xs@.len() && forall|i: int|
                0 <= i < xs@.len() ==> query_stmt_rel(#[trigger] xs@[i], ys@[i]),
            _ => false,
        },
        RamStmt::Until(test, body) => match r {
            RamStmt::Until(test2, body2) => test2 == test && query_stmt_rel(*body, *body2),
            _ => false,
        },
        RamStmt::Comment(c) => r == RamStmt::Comment(c),
    }
}

/// Hoist loop-invariant tests outward and rewrite prefix-equality searches
/// into indexed range queries.  This is purely an optimization: omitting it
/// must not change the final database.
#[verifier::loop_isolation(false)]
#[verifier::rlimit(60)]
#[verifier::spinoff_prover]
pub fn query_stmt(stmt: RamStmt) -> (r: RamStmt)
    ensures
        query_stmt_rel(stmt, r),
    decreases stmt,
{
    match stmt {
        RamStmt::Insert(op) => {
            let none: Vec<RowVar> = Vec::new();
            proof {
                assert(none.deep_view() =~= Seq::<RowVarV>::empty());
                assert(vars_set(none) =~= Set::<RowVarV>::empty());
            }
            let (inner, ground) = query_op(&none, op);
            if ground.len() == 0 {
                RamStmt::Insert(inner)
            } else {
                RamStmt::Insert(RelOp::If(ground, Box::new(inner)))
            }
        },
        RamStmt::Merge(a, b) => RamStmt::Merge(a, b),
        RamStmt::Assign(a, b) => RamStmt::Assign(a, b),
        RamStmt::Purge(a) => RamStmt::Purge(a),
        RamStmt::Sequence(xs) => {
            let ghost xs0 = xs@;
            let mut ys: Vec<RamStmt> = Vec::new();
            let mut rest = xs;
            proof {
                assert(rest@ =~= xs0.skip(0));
            }
            while rest.len() > 0
                invariant
                    ys@.len() + rest@.len() == xs0.len(),
                    rest@ == xs0.skip(ys@.len() as int),
                    forall|j: int|
                        0 <= j < ys@.len() ==> query_stmt_rel(#[trigger] xs0[j], ys@[j]),
                decreases rest@.len(),
            {
                let ghost done = ys@.len() as int;
                let s = rest.remove(0);
                proof {
                    assert(s == xs0[done]);
                    assert(rest@ =~= xs0.skip(done + 1));
                    assert(stmt->Sequence_0@ == xs0);
                    assert(s == stmt->Sequence_0@[done]);
                    assert(decreases_to!(stmt => s));
                }
                let s2 = query_stmt(s);
                ys.push(s2);
            }
            RamStmt::Sequence(ys)
        },
        RamStmt::Until(test, body) => {
            let body2 = query_stmt(*body);
            RamStmt::Until(test, Box::new(body2))
        },
        RamStmt::Comment(c) => RamStmt::Comment(c),
    }
}

} // verus!
