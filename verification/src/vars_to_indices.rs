use vstd::prelude::*;

use crate::interpreter::op_depth;
use crate::ram::{BoolExp, RamStmt, RamTerm, RelOp, RowVar, RowVarV};

verus! {

/// Why lowering stopped: only the machine bound on loop nesting.
#[derive(Clone, Copy, Debug, PartialEq, Eq, Structural)]
pub enum LowerError {
    /// An operation tree nests more loops than a positional index can
    /// count.
    DepthOverflow,
}

/// The scope of the lowering walk: each symbolic variable's positional
/// index.
pub type ScopeV = Map<RowVarV, i32>;

/// The map image of the scope entries, later entries winning.
pub open spec fn scope_fold(s: Seq<(RowVarV, i32)>) -> ScopeV
    decreases s.len(),
{
    if s.len() == 0 {
        Map::empty()
    } else {
        scope_fold(s.drop_last()).insert(s.last().0, s.last().1)
    }
}

/// The scope mapping threaded through the lowering walk, an insertion
/// ordered association list.
pub struct ScopeMap {
    entries: Vec<(RowVar, i32)>,
}

impl View for ScopeMap {
    type V = ScopeV;

    closed spec fn view(&self) -> ScopeV {
        scope_fold(self.entries.deep_view())
    }
}

impl ScopeMap {
    /// An empty scope.
    pub fn new() -> (r: Self)
        ensures
            r@ == ScopeV::empty(),
    {
        let r = ScopeMap { entries: Vec::new() };
        proof {
            assert(r.entries.deep_view() =~= Seq::<(RowVarV, i32)>::empty());
        }
        r
    }

    /// Bind `var` to position `idx`, shadowing any earlier binding.
    pub fn push(&mut self, var: RowVar, idx: i32)
        ensures
            final(self)@ == old(self)@.insert(var@, idx),
    {
        let ghost s0 = self.entries.deep_view();
        self.entries.push((var, idx));
        proof {
            assert(self.entries.deep_view() =~= s0.push((var@, idx)));
            assert(s0.push((var@, idx)).drop_last() =~= s0);
        }
    }

    /// The position bound to `var`, if any: the latest binding wins.
    pub fn get(&self, var: &RowVar) -> (r: Option<i32>)
        ensures
            match r {
                Some(idx) => self@.dom().contains(var@) && self@[var@] == idx,
                None => !self@.dom().contains(var@),
            },
    {
        let ghost s = self.entries.deep_view();
        let mut found: Option<i32> = None;
        let mut i: usize = 0;
        proof {
            assert(s.take(0) =~= Seq::<(RowVarV, i32)>::empty());
        }
        while i < self.entries.len()
            invariant
                0 <= i <= self.entries@.len(),
                s == self.entries.deep_view(),
                found == scope_lookup(s.take(i as int), var@),
            decreases self.entries@.len() - i,
        {
            proof {
                assert(s.take(i as int + 1).drop_last() =~= s.take(i as int));
                assert(s.take(i as int + 1).last() == s[i as int]);
            }
            if self.entries[i].0.eq_var(var) {
                found = Some(self.entries[i].1);
            }
            i = i + 1;
        }
        proof {
            assert(s.take(s.len() as int) =~= s);
            lemma_scope_lookup_fold(s, var@);
        }
        found
    }
}

/// Where the latest binding of a key sits in the entry sequence.
spec fn scope_lookup(s: Seq<(RowVarV, i32)>, k: RowVarV) -> Option<i32>
    decreases s.len(),
{
    if s.len() == 0 {
        None
    } else if s.last().0 == k {
        Some(s.last().1)
    } else {
        scope_lookup(s.drop_last(), k)
    }
}

/// The latest binding is the key's image under the folded map.
proof fn lemma_scope_lookup_fold(s: Seq<(RowVarV, i32)>, k: RowVarV)
    ensures
        scope_lookup(s, k) == (if scope_fold(s).dom().contains(k) {
            Some(scope_fold(s)[k])
        } else {
            None::<i32>
        }),
    decreases s.len(),
{
    if s.len() > 0 {
        lemma_scope_lookup_fold(s.drop_last(), k);
    }
}

/// The lowered form of a term: symbolic variables replaced by their
/// positional index in the scope; a variable the scope does not bind is
/// left alone.
pub open spec fn spec_lower_term(m: ScopeV, term: RamTerm) -> RamTerm
    decreases term,
{
    match term {
        RamTerm::Lit(v) => RamTerm::Lit(v),
        RamTerm::RowLoad(var, i) => if m.dom().contains(var@) {
            RamTerm::RowLoad(RowVar::Index(m[var@]), i)
        } else {
            RamTerm::RowLoad(var, i)
        },
        RamTerm::LoadLatVar(var) => if m.dom().contains(var@) {
            RamTerm::LoadLatVar(RowVar::Index(m[var@]))
        } else {
            RamTerm::LoadLatVar(var)
        },
        RamTerm::Meet(f, t1, t2) => RamTerm::Meet(
            f,
            Box::new(spec_lower_term(m, *t1)),
            Box::new(spec_lower_term(m, *t2)),
        ),
        RamTerm::App0(f) => RamTerm::App0(f),
        RamTerm::App1(f, t1) => RamTerm::App1(f, Box::new(spec_lower_term(m, *t1))),
        RamTerm::App2(f, t1, t2) => RamTerm::App2(
            f,
            Box::new(spec_lower_term(m, *t1)),
            Box::new(spec_lower_term(m, *t2)),
        ),
        RamTerm::App3(f, t1, t2, t3) => RamTerm::App3(
            f,
            Box::new(spec_lower_term(m, *t1)),
            Box::new(spec_lower_term(m, *t2)),
            Box::new(spec_lower_term(m, *t3)),
        ),
        RamTerm::App4(f, t1, t2, t3, t4) => RamTerm::App4(
            f,
            Box::new(spec_lower_term(m, *t1)),
            Box::new(spec_lower_term(m, *t2)),
            Box::new(spec_lower_term(m, *t3)),
            Box::new(spec_lower_term(m, *t4)),
        ),
        RamTerm::App5(f, t1, t2, t3, t4, t5) => RamTerm::App5(
            f,
            Box::new(spec_lower_term(m, *t1)),
            Box::new(spec_lower_term(m, *t2)),
            Box::new(spec_lower_term(m, *t3)),
            Box::new(spec_lower_term(m, *t4)),
            Box::new(spec_lower_term(m, *t5)),
        ),
    }
}

/// How a lowered test relates to its source: every term lowered under the
/// scope, everything else carried over unchanged.
pub open spec fn lower_exp_rel(m: ScopeV, e: BoolExp, r: BoolExp) -> bool {
    match (e, r) {
        (BoolExp::Empty(s), BoolExp::Empty(s2)) => s2 == s,
        (BoolExp::NotMemberOf(ts, s), BoolExp::NotMemberOf(ts2, s2)) => s2 == s && ts2@.len()
            == ts@.len() && forall|i: int|
            0 <= i < ts@.len() ==> ts2@[i] == spec_lower_term(m, #[trigger] ts@[i]),
        (BoolExp::Eq(t1, t2), BoolExp::Eq(r1, r2)) => r1 == spec_lower_term(m, t1) && r2
            == spec_lower_term(m, t2),
        (BoolExp::Leq(f, t1, t2), BoolExp::Leq(f2, r1, r2)) => f2 == f && r1 == spec_lower_term(
            m,
            t1,
        ) && r2 == spec_lower_term(m, t2),
        (BoolExp::Guard0(f), BoolExp::Guard0(f2)) => f2 == f,
        (BoolExp::Guard1(f, t1), BoolExp::Guard1(f2, r1)) => f2 == f && r1 == spec_lower_term(
            m,
            t1,
        ),
        (BoolExp::Guard2(f, t1, t2), BoolExp::Guard2(f2, r1, r2)) => f2 == f && r1
            == spec_lower_term(m, t1) && r2 == spec_lower_term(m, t2),
        (BoolExp::Guard3(f, t1, t2, t3), BoolExp::Guard3(f2, r1, r2, r3)) => f2 == f && r1
            == spec_lower_term(m, t1) && r2 == spec_lower_term(m, t2) && r3 == spec_lower_term(
            m,
            t3,
        ),
        (BoolExp::Guard4(f, t1, t2, t3, t4), BoolExp::Guard4(f2, r1, r2, r3, r4)) => f2 == f && r1
            == spec_lower_term(m, t1) && r2 == spec_lower_term(m, t2) && r3 == spec_lower_term(
            m,
            t3,
        ) && r4 == spec_lower_term(m, t4),
        (BoolExp::Guard5(f, t1, t2, t3, t4, t5), BoolExp::Guard5(f2, r1, r2, r3, r4, r5)) => f2
            == f && r1 == spec_lower_term(m, t1) && r2 == spec_lower_term(m, t2) && r3
            == spec_lower_term(m, t3) && r4 == spec_lower_term(m, t4) && r5 == spec_lower_term(
            m,
            t5,
        ),
        _ => false,
    }
}

/// How a lowered operation relates to its source: each loop's variable
/// becomes the position equal to its nesting depth and is bound in the
/// scope of everything nested inside; prefix-query and generator terms are
/// lowered under the outer scope; guards and projections under the current
/// one.
pub open spec fn lower_op_rel(m: ScopeV, depth: i32, op: RelOp, r: RelOp) -> bool
    decreases op,
{
    match (op, r) {
        (RelOp::Search(var, sym, body), RelOp::Search(var2, sym2, body2)) => {
            &&& var2 == RowVar::Index(depth)
            &&& sym2 == sym
            &&& depth < i32::MAX
            &&& lower_op_rel(m.insert(var@, depth), (depth + 1) as i32, *body, *body2)
        },
        (RelOp::Query(var, sym, q, body), RelOp::Query(var2, sym2, q2, body2)) => {
            &&& var2 == RowVar::Index(depth)
            &&& sym2 == sym
            &&& q2@.len() == q@.len()
            &&& forall|i: int|
                0 <= i < q@.len() ==> #[trigger] q2@[i] == (
                q@[i].0,
                spec_lower_term(m, q@[i].1),
            )
            &&& depth < i32::MAX
            &&& lower_op_rel(m.insert(var@, depth), (depth + 1) as i32, *body, *body2)
        },
        (RelOp::Functional(var, f, ts, body), RelOp::Functional(var2, f2, ts2, body2)) => {
            &&& var2 == RowVar::Index(depth)
            &&& f2 == f
            &&& ts2@.len() == ts@.len()
            &&& forall|i: int|
                0 <= i < ts@.len() ==> ts2@[i] == spec_lower_term(m, #[trigger] ts@[i])
            &&& depth < i32::MAX
            &&& lower_op_rel(m.insert(var@, depth), (depth + 1) as i32, *body, *body2)
        },
        (RelOp::Project(ts, sym), RelOp::Project(ts2, sym2)) => {
            &&& sym2 == sym
            &&& ts2@.len() == ts@.len()
            &&& forall|i: int|
                0 <= i < ts@.len() ==> ts2@[i] == spec_lower_term(m, #[trigger] ts@[i])
        },
        (RelOp::If(test, then), RelOp::If(test2, then2)) => {
            &&& test2@.len() == test@.len()
            &&& forall|i: int|
                0 <= i < test@.len() ==> lower_exp_rel(m, #[trigger] test@[i], test2@[i])
            &&& lower_op_rel(m, depth, *then, *then2)
        },
        _ => false,
    }
}

/// How a lowered statement relates to its source: the operation of each
/// `Insert` is lowered from an empty scope at depth zero; everything else
/// keeps its shape, with nested statements lowered in turn.  The tests of
/// an `Until` already run in an empty environment and are carried over.
pub open spec fn lower_stmt_rel(s: RamStmt, r: RamStmt) -> bool
    decreases s,
{
    match (s, r) {
        (RamStmt::Insert(op), RamStmt::Insert(op2)) => lower_op_rel(Map::empty(), 0, op, op2),
        (RamStmt::Merge(a, b), RamStmt::Merge(a2, b2)) => a2 == a && b2 == b,
        (RamStmt::Assign(a, b), RamStmt::Assign(a2, b2)) => a2 == a && b2 == b,
        (RamStmt::Purge(a), RamStmt::Purge(a2)) => a2 == a,
        (RamStmt::Sequence(xs), RamStmt::Sequence(ys)) => ys@.len() == xs@.len() && forall|i: int|
            0 <= i < xs@.len() ==> lower_stmt_rel(#[trigger] xs@[i], ys@[i]),
        (RamStmt::Until(test, body), RamStmt::Until(test2, body2)) => test2 == test
            && lower_stmt_rel(*body, *body2),
        (RamStmt::Comment(c), RamStmt::Comment(c2)) => c2 == c,
        _ => false,
    }
}

/// Lower one term: replace each scope-bound symbolic variable by its
/// positional index.
pub fn lower_term(row_vars: &ScopeMap, term: RamTerm) -> (r: RamTerm)
    ensures
        r == spec_lower_term(row_vars@, term),
    decreases term,
{
    match term {
        RamTerm::Lit(v) => RamTerm::Lit(v),
        RamTerm::RowLoad(var, i) => match row_vars.get(&var) {
            Some(idx) => RamTerm::RowLoad(RowVar::Index(idx), i),
            None => RamTerm::RowLoad(var, i),
        },
        RamTerm::LoadLatVar(var) => match row_vars.get(&var) {
            Some(idx) => RamTerm::LoadLatVar(RowVar::Index(idx)),
            None => RamTerm::LoadLatVar(var),
        },
        RamTerm::Meet(f, t1, t2) => RamTerm::Meet(
            f,
            Box::new(lower_term(row_vars, *t1)),
            Box::new(lower_term(row_vars, *t2)),
        ),
        RamTerm::App0(f) => RamTerm::App0(f),
        RamTerm::App1(f, t1) => RamTerm::App1(f, Box::new(lower_term(row_vars, *t1))),
        RamTerm::App2(f, t1, t2) => RamTerm::App2(
            f,
            Box::new(lower_term(row_vars, *t1)),
            Box::new(lower_term(row_vars, *t2)),
        ),
        RamTerm::App3(f, t1, t2, t3) => RamTerm::App3(
            f,
            Box::new(lower_term(row_vars, *t1)),
            Box::new(lower_term(row_vars, *t2)),
            Box::new(lower_term(row_vars, *t3)),
        ),
        RamTerm::App4(f, t1, t2, t3, t4) => RamTerm::App4(
            f,
            Box::new(lower_term(row_vars, *t1)),
            Box::new(lower_term(row_vars, *t2)),
            Box::new(lower_term(row_vars, *t3)),
            Box::new(lower_term(row_vars, *t4)),
        ),
        RamTerm::App5(f, t1, t2, t3, t4, t5) => RamTerm::App5(
            f,
            Box::new(lower_term(row_vars, *t1)),
            Box::new(lower_term(row_vars, *t2)),
            Box::new(lower_term(row_vars, *t3)),
            Box::new(lower_term(row_vars, *t4)),
            Box::new(lower_term(row_vars, *t5)),
        ),
    }
}

/// Lower the terms of one boolean test.
pub fn lower_exp(row_vars: &ScopeMap, exp: BoolExp) -> (r: BoolExp)
    ensures
        lower_exp_rel(row_vars@, exp, r),
{
    match exp {
        BoolExp::Empty(s) => BoolExp::Empty(s),
        BoolExp::NotMemberOf(ts, s) => {
            let ghost ts0 = ts@;
            let mut out: Vec<RamTerm> = Vec::new();
            let mut i: usize = 0;
            while i < ts.len()
                invariant
                    0 <= i <= ts@.len(),
                    ts@ == ts0,
                    out@.len() == i,
                    forall|j: int|
                        0 <= j < i ==> out@[j] == spec_lower_term(row_vars@, #[trigger] ts0[j]),
                decreases ts@.len() - i,
            {
                out.push(lower_term(row_vars, ts[i].clone()));
                i = i + 1;
            }
            BoolExp::NotMemberOf(out, s)
        },
        BoolExp::Eq(t1, t2) => BoolExp::Eq(lower_term(row_vars, t1), lower_term(row_vars, t2)),
        BoolExp::Leq(f, t1, t2) => BoolExp::Leq(
            f,
            lower_term(row_vars, t1),
            lower_term(row_vars, t2),
        ),
        BoolExp::Guard0(f) => BoolExp::Guard0(f),
        BoolExp::Guard1(f, t1) => BoolExp::Guard1(f, lower_term(row_vars, t1)),
        BoolExp::Guard2(f, t1, t2) => BoolExp::Guard2(
            f,
            lower_term(row_vars, t1),
            lower_term(row_vars, t2),
        ),
        BoolExp::Guard3(f, t1, t2, t3) => BoolExp::Guard3(
            f,
            lower_term(row_vars, t1),
            lower_term(row_vars, t2),
            lower_term(row_vars, t3),
        ),
        BoolExp::Guard4(f, t1, t2, t3, t4) => BoolExp::Guard4(
            f,
            lower_term(row_vars, t1),
            lower_term(row_vars, t2),
            lower_term(row_vars, t3),
            lower_term(row_vars, t4),
        ),
        BoolExp::Guard5(f, t1, t2, t3, t4, t5) => BoolExp::Guard5(
            f,
            lower_term(row_vars, t1),
            lower_term(row_vars, t2),
            lower_term(row_vars, t3),
            lower_term(row_vars, t4),
            lower_term(row_vars, t5),
        ),
    }
}

/// Lower one operation, binding each loop variable to its nesting depth.
pub fn lower_op(row_vars: ScopeMap, depth: i32, op: RelOp) -> (r: Result<RelOp, LowerError>)
    requires
        depth >= 0,
    ensures
        match r {
            Ok(out) => lower_op_rel(row_vars@, depth, op, out),
            Err(_) => depth + op_depth(op) > i32::MAX,
        },
        depth + op_depth(op) <= i32::MAX ==> r is Ok,
    decreases op,
{
    match op {
        RelOp::Search(var, ram_sym, body) => {
            if depth == i32::MAX {
                return Err(LowerError::DepthOverflow);
            }
            let new_var = RowVar::Index(depth);
            let mut new_vars = row_vars;
            new_vars.push(var, depth);
            let body2 = lower_op(new_vars, depth + 1, *body)?;
            Ok(RelOp::Search(new_var, ram_sym, Box::new(body2)))
        },
        RelOp::Query(var, ram_sym, prefix_query, body) => {
            if depth == i32::MAX {
                return Err(LowerError::DepthOverflow);
            }
            let ghost q0 = prefix_query@;
            let mut new_query: Vec<(i32, RamTerm)> = Vec::new();
            let mut i: usize = 0;
            while i < prefix_query.len()
                invariant
                    0 <= i <= prefix_query@.len(),
                    prefix_query@ == q0,
                    new_query@.len() == i,
                    forall|j: int|
                        0 <= j < i ==> #[trigger] new_query@[j] == (
                        q0[j].0,
                        spec_lower_term(row_vars@, q0[j].1),
                    ),
                decreases prefix_query@.len() - i,
            {
                let t = lower_term(&row_vars, prefix_query[i].1.clone());
                new_query.push((prefix_query[i].0, t));
                i = i + 1;
            }
            let new_var = RowVar::Index(depth);
            let mut new_vars = row_vars;
            new_vars.push(var, depth);
            let body2 = lower_op(new_vars, depth + 1, *body)?;
            Ok(RelOp::Query(new_var, ram_sym, new_query, Box::new(body2)))
        },
        RelOp::Functional(var, f, terms, body) => {
            if depth == i32::MAX {
                return Err(LowerError::DepthOverflow);
            }
            let ghost ts0 = terms@;
            let mut new_terms: Vec<RamTerm> = Vec::new();
            let mut i: usize = 0;
            while i < terms.len()
                invariant
                    0 <= i <= terms@.len(),
                    terms@ == ts0,
                    new_terms@.len() == i,
                    forall|j: int|
                        0 <= j < i ==> new_terms@[j] == spec_lower_term(
                            row_vars@,
                            #[trigger] ts0[j],
                        ),
                decreases terms@.len() - i,
            {
                new_terms.push(lower_term(&row_vars, terms[i].clone()));
                i = i + 1;
            }
            let new_var = RowVar::Index(depth);
            let mut new_vars = row_vars;
            new_vars.push(var, depth);
            let body2 = lower_op(new_vars, depth + 1, *body)?;
            Ok(RelOp::Functional(new_var, f, new_terms, Box::new(body2)))
        },
        RelOp::Project(terms, ram_sym) => {
            let ghost ts0 = terms@;
            let mut new_terms: Vec<RamTerm> = Vec::new();
            let mut i: usize = 0;
            while i < terms.len()
                invariant
                    0 <= i <= terms@.len(),
                    terms@ == ts0,
                    new_terms@.len() == i,
                    forall|j: int|
                        0 <= j < i ==> new_terms@[j] == spec_lower_term(
                            row_vars@,
                            #[trigger] ts0[j],
                        ),
                decreases terms@.len() - i,
            {
                new_terms.push(lower_term(&row_vars, terms[i].clone()));
                i = i + 1;
            }
            Ok(RelOp::Project(new_terms, ram_sym))
        },
        RelOp::If(test, then) => {
            let ghost es0 = test@;
            let mut new_test: Vec<BoolExp> = Vec::new();
            let mut i: usize = 0;
            while i < test.len()
                invariant
                    0 <= i <= test@.len(),
                    test@ == es0,
                    new_test@.len() == i,
                    forall|j: int|
                        0 <= j < i ==> lower_exp_rel(row_vars@, #[trigger] es0[j], new_test@[j]),
                decreases test@.len() - i,
            {
                let copy = clone_exp(&test[i]);
                let lowered = lower_exp(&row_vars, copy);
                proof {
                    assert(lower_exp_rel(row_vars@, es0[i as int], lowered));
                }
                new_test.push(lowered);
                i = i + 1;
            }
            let then2 = lower_op(row_vars, depth, *then)?;
            Ok(RelOp::If(new_test, Box::new(then2)))
        },
    }
}

/// One test is a copy of another: equal, except that the tuple of a
/// membership test may live in a different vector with the same terms.
pub open spec fn exp_similar(a: BoolExp, b: BoolExp) -> bool {
    match (a, b) {
        (BoolExp::NotMemberOf(t1, s1), BoolExp::NotMemberOf(t2, s2)) => t1@ == t2@ && s1 == s2,
        _ => a == b,
    }
}

/// Copy one boolean test.
fn clone_exp(e: &BoolExp) -> (r: BoolExp)
    ensures
        exp_similar(r, *e),
{
    match e {
        BoolExp::Empty(s) => BoolExp::Empty(s.clone()),
        BoolExp::NotMemberOf(ts, s) => {
            let mut out: Vec<RamTerm> = Vec::new();
            let mut i: usize = 0;
            while i < ts.len()
                invariant
                    0 <= i <= ts@.len(),
                    out@ == ts@.take(i as int),
                decreases ts@.len() - i,
            {
                out.push(ts[i].clone());
                proof {
                    assert(out@ =~= ts@.take(i as int + 1));
                }
                i = i + 1;
            }
            proof {
                assert(ts@.take(ts@.len() as int) =~= ts@);
            }
            BoolExp::NotMemberOf(out, s.clone())
        },
        BoolExp::Eq(t1, t2) => BoolExp::Eq(t1.clone(), t2.clone()),
        BoolExp::Leq(f, t1, t2) => BoolExp::Leq(*f, t1.clone(), t2.clone()),
        BoolExp::Guard0(f) => BoolExp::Guard0(*f),
        BoolExp::Guard1(f, t1) => BoolExp::Guard1(*f, t1.clone()),
        BoolExp::Guard2(f, t1, t2) => BoolExp::Guard2(*f, t1.clone(), t2.clone()),
        BoolExp::Guard3(f, t1, t2, t3) => BoolExp::Guard3(*f, t1.clone(), t2.clone(), t3.clone()),
        BoolExp::Guard4(f, t1, t2, t3, t4) => BoolExp::Guard4(
            *f,
            t1.clone(),
            t2.clone(),
            t3.clone(),
            t4.clone(),
        ),
        BoolExp::Guard5(f, t1, t2, t3, t4, t5) => BoolExp::Guard5(
            *f,
            t1.clone(),
            t2.clone(),
            t3.clone(),
            t4.clone(),
            t5.clone(),
        ),
    }
}

/// Whether every operation of a statement nests few enough loops for a
/// positional index: the machine limit on lowering.
pub open spec fn stmt_fits(s: RamStmt) -> bool
    decreases s,
{
    match s {
        RamStmt::Insert(op) => op_depth(op) <= i32::MAX,
        RamStmt::Sequence(xs) => forall|i: int|
            0 <= i < xs@.len() ==> stmt_fits(#[trigger] xs@[i]),
        RamStmt::Until(_, body) => stmt_fits(*body),
        _ => true,
    }
}

/// Resolve every symbolic loop variable of a RAM statement into the
/// positional index of the loop that introduced it, so the interpreter's
/// flat environment can be read in constant time.
#[verifier::loop_isolation(false)]
pub fn lower_stmt(stmt: RamStmt) -> (r: Result<RamStmt, LowerError>)
    ensures
        match r {
            Ok(out) => lower_stmt_rel(stmt, out),
            Err(_) => !stmt_fits(stmt),
        },
        stmt_fits(stmt) ==> r is Ok,
    decreases stmt,
{
    match stmt {
        RamStmt::Insert(op) => {
            let op1 = lower_op(ScopeMap::new(), 0, op)?;
            Ok(RamStmt::Insert(op1))
        },
        RamStmt::Merge(a, b) => Ok(RamStmt::Merge(a, b)),
        RamStmt::Assign(a, b) => Ok(RamStmt::Assign(a, b)),
        RamStmt::Purge(a) => Ok(RamStmt::Purge(a)),
        RamStmt::Sequence(xs) => {
            let ghost xs0 = xs@;
            let mut ys: Vec<RamStmt> = Vec::new();
            let mut rest = xs;
            proof {
                assert(rest@ =~= xs0.skip(0));
            }
            while rest.len() > 0
                invariant
                    ys@.len() + rest@.len() == xs0.len(),
                    rest@ == xs0.skip(ys@.len() as int),
                    forall|j: int|
                        0 <= j < ys@.len() ==> lower_stmt_rel(#[trigger] xs0[j], ys@[j]),
                decreases rest@.len(),
            {
                let ghost done = ys@.len() as int;
                let s = rest.remove(0);
                proof {
                    assert(s == xs0[done]);
                    assert(rest@ =~= xs0.skip(done + 1));
                    assert(stmt->Sequence_0@ == xs0);
                    assert(s == stmt->Sequence_0@[done]);
                    assert(decreases_to!(stmt => s));
                }
                let s2 = match lower_stmt(s) {
                    Ok(s2) => s2,
                    Err(e) => {
                        proof {
                            assert(!stmt_fits(xs0[done]));
                            assert(!stmt_fits(stmt));
                        }
                        return Err(e);
                    },
                };
                ys.push(s2);
            }
            Ok(RamStmt::Sequence(ys))
        },
        RamStmt::Until(test, body) => {
            let body1 = lower_stmt(*body)?;
            Ok(RamStmt::Until(test, Box::new(body1)))
        },
        RamStmt::Comment(c) => Ok(RamStmt::Comment(c)),
    }
}

} // verus!
