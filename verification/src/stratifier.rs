use vstd::prelude::*;

use crate::datalog::{BodyPredicate, Constraint, Datalog, HeadPredicate};
use crate::precedence_graph::{
    graph_extend, graph_insert, PrecedenceEdge, PrecedenceEdgeV, PrecedenceGraph,
};
use crate::shared::{PredSym, PredSymV};

verus! {

/// Why stratification stopped: a body-head pair lies on a cycle through a
/// strong edge, so no stratum assignment can satisfy the rules — an
/// invariant violation by the host compiler, which must hand over
/// stratifiable programs only.
#[derive(Clone, Copy, Debug, PartialEq, Eq, Structural)]
pub enum StratifyError {
    StrongCycle,
}

/// The image of a stratum assignment: predicate identity to stratum.
pub type StrataV = Map<PredSymV, i32>;

/// The map image of an association sequence, later entries winning.
pub open spec fn smap_fold(s: Seq<(PredSymV, i32)>) -> StrataV
    decreases s.len(),
{
    if s.len() == 0 {
        Map::empty()
    } else {
        smap_fold(s.drop_last()).insert(s.last().0, s.last().1)
    }
}

/// No two entries name the same predicate.
pub open spec fn smap_unique(s: Seq<(PredSymV, i32)>) -> bool {
    forall|i: int, j: int| 0 <= i < j < s.len() ==> s[i].0 != s[j].0
}

/// Whether some entry names `k`.
pub open spec fn smap_has_key(s: Seq<(PredSymV, i32)>, k: PredSymV) -> bool {
    exists|i: int| 0 <= i < s.len() && s[i].0 == k
}

proof fn lemma_smap_absent(s: Seq<(PredSymV, i32)>, k: PredSymV)
    requires
        !smap_has_key(s, k),
    ensures
        !smap_fold(s).dom().contains(k),
    decreases s.len(),
{
    if s.len() > 0 {
        assert(!smap_has_key(s.drop_last(), k)) by {
            if smap_has_key(s.drop_last(), k) {
                let i = choose|i: int| 0 <= i < s.drop_last().len() && s.drop_last()[i].0 == k;
                assert(s[i].0 == k);
            }
        }
        lemma_smap_absent(s.drop_last(), k);
    }
}

proof fn lemma_smap_found(s: Seq<(PredSymV, i32)>, i: int)
    requires
        smap_unique(s),
        0 <= i < s.len(),
    ensures
        smap_fold(s).dom().contains(s[i].0),
        smap_fold(s)[s[i].0] == s[i].1,
    decreases s.len(),
{
    if i < s.len() - 1 {
        lemma_smap_found(s.drop_last(), i);
    }
}

proof fn lemma_smap_dom(s: Seq<(PredSymV, i32)>, k: PredSymV)
    requires
        smap_fold(s).dom().contains(k),
    ensures
        smap_has_key(s, k),
    decreases s.len(),
{
    if s.len() > 0 {
        if s.last().0 == k {
            assert(s[s.len() - 1].0 == k);
        } else {
            lemma_smap_dom(s.drop_last(), k);
            let i = choose|i: int| 0 <= i < s.drop_last().len() && s.drop_last()[i].0 == k;
            assert(s[i].0 == k);
        }
    }
}

proof fn lemma_smap_update(s: Seq<(PredSymV, i32)>, i: int, k: PredSymV, v: i32)
    requires
        smap_unique(s),
        0 <= i < s.len(),
        s[i].0 == k,
    ensures
        smap_fold(s.update(i, (k, v))) == smap_fold(s).insert(k, v),
        smap_unique(s.update(i, (k, v))),
    decreases s.len(),
{
    let s2 = s.update(i, (k, v));
    if i == s.len() - 1 {
        assert(s2.drop_last() =~= s.drop_last());
        assert(smap_fold(s2) =~= smap_fold(s).insert(k, v));
    } else {
        lemma_smap_update(s.drop_last(), i, k, v);
        assert(s2.drop_last() =~= s.drop_last().update(i, (k, v)));
        assert(s2.last() == s.last());
        assert(s[i].0 != s.last().0);
        assert(smap_fold(s2) =~= smap_fold(s).insert(k, v));
    }
}

proof fn lemma_smap_push(s: Seq<(PredSymV, i32)>, k: PredSymV, v: i32)
    requires
        smap_unique(s),
        !smap_has_key(s, k),
    ensures
        smap_fold(s.push((k, v))) == smap_fold(s).insert(k, v),
        smap_unique(s.push((k, v))),
    decreases s.len(),
{
    let s2 = s.push((k, v));
    assert(s2.drop_last() =~= s);
    assert(s2.last() == (k, v));
    assert forall|a: int, b: int| 0 <= a < b < s2.len() implies s2[a].0 != s2[b].0 by {
        if b == s.len() {
            assert(s[a].0 == s2[a].0);
        }
    }
}

/// A stratum assignment: each predicate's stratum, a non-negative number.
#[derive(Debug)]
pub struct StratumMap {
    entries: Vec<(PredSym, i32)>,
}

impl View for StratumMap {
    type V = StrataV;

    closed spec fn view(&self) -> StrataV {
        smap_fold(self.entry_seq())
    }
}

impl StratumMap {
    /// The entries in insertion order.
    pub closed spec fn entry_seq(&self) -> Seq<(PredSymV, i32)> {
        self.entries.deep_view()
    }

    /// Every predicate has one entry.
    #[verifier::type_invariant]
    spec fn wf(self) -> bool {
        smap_unique(self.entry_seq())
    }

    /// An assignment with no predicates.
    pub fn new() -> (r: Self)
        ensures
            r@ == StrataV::empty(),
            r.entry_seq() == Seq::<(PredSymV, i32)>::empty(),
    {
        let r = StratumMap { entries: Vec::new() };
        proof {
            assert(r.entry_seq() =~= Seq::<(PredSymV, i32)>::empty());
        }
        r
    }

    /// How many predicates are assigned.
    pub fn len(&self) -> (r: usize)
        ensures
            r == self.entry_seq().len(),
    {
        self.entries.len()
    }

    /// The entry at position `i`.
    pub fn entry_at(&self, i: usize) -> (r: &(PredSym, i32))
        requires
            i < self.entry_seq().len(),
        ensures
            r.deep_view() == self.entry_seq()[i as int],
            self@.dom().contains(r.0@),
            self@[r.0@] == r.1,
    {
        proof {
            use_type_invariant(&*self);
            lemma_smap_found(self.entry_seq(), i as int);
        }
        &self.entries[i]
    }

    /// The position of the entry for `k`, if one exists.
    fn find(&self, k: &PredSym) -> (r: Option<usize>)
        ensures
            match r {
                Some(i) => 0 <= i < self.entry_seq().len() && self.entry_seq()[i as int].0 == k@,
                None => !smap_has_key(self.entry_seq(), k@),
            },
    {
        let mut i: usize = 0;
        while i < self.entries.len()
            invariant
                0 <= i <= self.entry_seq().len(),
                self.entry_seq().len() == self.entries.len(),
                forall|j: int| 0 <= j < i ==> self.entry_seq()[j].0 != k@,
            decreases self.entries.len() - i,
        {
            if self.entries[i].0.eq_sym(k) {
                return Some(i);
            }
            i = i + 1;
        }
        None
    }

    /// The stratum assigned to `k`, if any.
    pub fn get(&self, k: &PredSym) -> (r: Option<i32>)
        ensures
            match r {
                Some(v) => self@.dom().contains(k@) && self@[k@] == v,
                None => !self@.dom().contains(k@),
            },
    {
        proof {
            use_type_invariant(&*self);
        }
        match self.find(k) {
            Some(i) => {
                proof {
                    lemma_smap_found(self.entry_seq(), i as int);
                }
                Some(self.entries[i].1)
            },
            None => {
                proof {
                    lemma_smap_absent(self.entry_seq(), k@);
                }
                None
            },
        }
    }

    /// Assign stratum `v` to `k`.
    pub fn set(&mut self, k: PredSym, v: i32)
        ensures
            final(self)@ == old(self)@.insert(k@, v),
    {
        proof {
            use_type_invariant(&*self);
        }
        let found = self.find(&k);
        let ghost s0 = self.entry_seq();
        let mut entries: Vec<(PredSym, i32)> = Vec::new();
        std::mem::swap(&mut entries, &mut self.entries);
        match found {
            Some(i) => {
                proof {
                    lemma_smap_update(s0, i as int, k@, v);
                }
                entries[i] = (k, v);
                proof {
                    assert(entries.deep_view() =~= s0.update(i as int, (k@, v)));
                }
                self.entries = entries;
            },
            None => {
                proof {
                    lemma_smap_push(s0, k@, v);
                }
                entries.push((k, v));
                proof {
                    assert(entries.deep_view() =~= s0.push((k@, v)));
                }
                self.entries = entries;
            },
        }
    }
}

/// The pointwise maximum of two assignments: the union of their predicates,
/// with the larger stratum where both assign one.
pub open spec fn spec_merge_max(m1: StrataV, m2: StrataV) -> StrataV {
    Map::new(
        |k: PredSymV| m1.dom().contains(k) || m2.dom().contains(k),
        |k: PredSymV|
            if m1.dom().contains(k) && m2.dom().contains(k) {
                if m1[k] >= m2[k] {
                    m1[k]
                } else {
                    m2[k]
                }
            } else if m1.dom().contains(k) {
                m1[k]
            } else {
                m2[k]
            },
    )
}

/// The stratum a map assigns, an unassigned predicate sitting at zero.
pub open spec fn lookup0(m: StrataV, k: PredSymV) -> int {
    if m.dom().contains(k) {
        m[k] as int
    } else {
        0
    }
}

/// The body and head of an edge.
pub open spec fn edge_body(e: PrecedenceEdgeV) -> PredSymV {
    match e {
        PrecedenceEdgeV::StrongEdge(b, _) => b,
        PrecedenceEdgeV::WeakEdge(b, _) => b,
    }
}

/// The head of an edge.
pub open spec fn edge_head(e: PrecedenceEdgeV) -> PredSymV {
    match e {
        PrecedenceEdgeV::StrongEdge(_, h) => h,
        PrecedenceEdgeV::WeakEdge(_, h) => h,
    }
}

/// The largest stratum the algorithm tolerates: the number of edges, capped
/// at the machine's integer range.  A raise past this bound betrays a cycle
/// through a strong edge.
pub open spec fn stratum_bound(n: int) -> int {
    if n > i32::MAX as int {
        i32::MAX as int
    } else {
        n
    }
}

/// Enforce one edge: a weak edge raises its head to its body's stratum, a
/// strong edge to one more; a strong raise past the bound fails.  The flag
/// reports whether anything changed.
pub open spec fn spec_apply_edge(bound: int, m: StrataV, e: PrecedenceEdgeV) -> Option<
    (StrataV, bool),
> {
    match e {
        PrecedenceEdgeV::WeakEdge(b, h) => if lookup0(m, b) > lookup0(m, h) {
            Some((m.insert(h, lookup0(m, b) as i32), true))
        } else {
            Some((m, false))
        },
        PrecedenceEdgeV::StrongEdge(b, h) => if lookup0(m, b) >= lookup0(m, h) {
            if lookup0(m, b) + 1 > bound {
                None
            } else {
                Some((m.insert(h, (lookup0(m, b) + 1) as i32), true))
            }
        } else {
            Some((m, false))
        },
    }
}

/// Enforce the edges from position `i` on, one scan of the graph.
pub open spec fn spec_pass(bound: int, m: StrataV, edges: Seq<PrecedenceEdgeV>, i: int) -> Option<
    (StrataV, bool),
>
    decreases edges.len() - i,
{
    if i < 0 || i >= edges.len() {
        Some((m, false))
    } else {
        match spec_apply_edge(bound, m, edges[i]) {
            None => None,
            Some((m2, ch)) => match spec_pass(bound, m2, edges, i + 1) {
                None => None,
                Some((m3, ch2)) => Some((m3, ch || ch2)),
            },
        }
    }
}

/// What repeated scans come to: the fixpoint assignment, a stratification
/// failure, or the scan budget ran out first.
pub enum StratRes {
    Done(StrataV),
    Fail,
    Pending,
}

/// Scan until no stratum changes, spending one unit of fuel per changing
/// scan.
pub open spec fn spec_strat_iter(
    bound: int,
    m: StrataV,
    edges: Seq<PrecedenceEdgeV>,
    fuel: nat,
) -> StratRes
    decreases fuel,
{
    match spec_pass(bound, m, edges, 0) {
        None => StratRes::Fail,
        Some((m2, ch)) => if !ch {
            StratRes::Done(m2)
        } else if fuel == 0 {
            StratRes::Pending
        } else {
            spec_strat_iter(bound, m2, edges, (fuel - 1) as nat)
        },
    }
}

/// More fuel never changes a result the scan already reached.
proof fn lemma_strat_iter_mono(
    bound: int,
    m: StrataV,
    edges: Seq<PrecedenceEdgeV>,
    f1: nat,
    f2: nat,
)
    requires
        f1 <= f2,
        spec_strat_iter(bound, m, edges, f1) != StratRes::Pending,
    ensures
        spec_strat_iter(bound, m, edges, f2) == spec_strat_iter(bound, m, edges, f1),
    decreases f1,
{
    match spec_pass(bound, m, edges, 0) {
        None => {},
        Some((m2, ch)) => {
            if ch {
                lemma_strat_iter_mono(bound, m2, edges, (f1 - 1) as nat, (f2 - 1) as nat);
            }
        },
    }
}

/// Any two reached results of the scan agree.
proof fn lemma_strat_iter_agree(
    bound: int,
    m: StrataV,
    edges: Seq<PrecedenceEdgeV>,
    f1: nat,
    f2: nat,
)
    requires
        spec_strat_iter(bound, m, edges, f1) != StratRes::Pending,
        spec_strat_iter(bound, m, edges, f2) != StratRes::Pending,
    ensures
        spec_strat_iter(bound, m, edges, f1) == spec_strat_iter(bound, m, edges, f2),
{
    if f1 <= f2 {
        lemma_strat_iter_mono(bound, m, edges, f1, f2);
    } else {
        lemma_strat_iter_mono(bound, m, edges, f2, f1);
    }
}

/// The assignment the scans converge to, if they converge at all.
pub open spec fn spec_strat_run(bound: int, m: StrataV, edges: Seq<PrecedenceEdgeV>) -> Option<
    StrataV,
> {
    if exists|k: nat| spec_strat_iter(bound, m, edges, k) != StratRes::Pending {
        let k = choose|k: nat| spec_strat_iter(bound, m, edges, k) != StratRes::Pending;
        match spec_strat_iter(bound, m, edges, k) {
            StratRes::Done(m2) => Some(m2),
            _ => None,
        }
    } else {
        None
    }
}

/// The edges a body predicate contributes: positive loose atoms give a weak
/// edge from body to head, negative or fixed atoms a strong one; guards and
/// generators give none.
pub open spec fn spec_dep_edge(dst: HeadPredicate, src: BodyPredicate) -> Seq<PrecedenceEdgeV> {
    match dst {
        HeadPredicate::HeadAtom(head_sym, _, _) => match src {
            BodyPredicate::BodyAtom(body_sym, _, pol, fix, _) => if pol
                is Positive && fix is Loose {
                seq![PrecedenceEdgeV::WeakEdge(body_sym@, head_sym@)]
            } else {
                seq![PrecedenceEdgeV::StrongEdge(body_sym@, head_sym@)]
            },
            _ => Seq::empty(),
        },
    }
}

/// The edges of one rule's first `i` body predicates.
pub open spec fn spec_rule_graph_upto(cnst: Constraint, i: int) -> Seq<PrecedenceEdgeV>
    decreases i,
{
    match cnst {
        Constraint::Constraint(head, body) => if i <= 0 {
            Seq::empty()
        } else {
            graph_extend(spec_rule_graph_upto(cnst, i - 1), spec_dep_edge(head, body@[i - 1]))
        },
    }
}

/// The edges of one rule.
pub open spec fn spec_rule_graph(cnst: Constraint) -> Seq<PrecedenceEdgeV> {
    match cnst {
        Constraint::Constraint(_, body) => spec_rule_graph_upto(cnst, body@.len() as int),
    }
}

/// The edges of the first `i` rules.
pub open spec fn spec_rules_graph(rules: Seq<Constraint>, i: int) -> Seq<PrecedenceEdgeV>
    decreases i,
{
    if i <= 0 {
        Seq::empty()
    } else {
        graph_extend(spec_rules_graph(rules, i - 1), spec_rule_graph(rules[i - 1]))
    }
}

/// The precedence graph of a program.
pub open spec fn spec_dep_graph(d: Datalog) -> Seq<PrecedenceEdgeV>
    decreases d,
{
    match d {
        Datalog::Program(_, rules) => spec_rules_graph(rules@, rules@.len() as int),
        Datalog::Model(_) => Seq::empty(),
        Datalog::Join(d1, d2) => graph_extend(spec_dep_graph(*d1), spec_dep_graph(*d2)),
    }
}

/// The head symbol of a constraint.
pub open spec fn head_sym_of(cnst: Constraint) -> PredSymV {
    match cnst {
        Constraint::Constraint(HeadPredicate::HeadAtom(s, _, _), _) => s@,
    }
}

/// Stratum zero for the heads of the first `i` rules: the assignment every
/// scan starts from.  Facts contribute nothing.
pub open spec fn spec_init_map(rules: Seq<Constraint>, i: int) -> StrataV
    decreases i,
{
    if i <= 0 {
        Map::empty()
    } else {
        spec_init_map(rules, i - 1).insert(head_sym_of(rules[i - 1]), 0)
    }
}

/// The stratum assignment of a program: every rule head starts at stratum
/// zero and Ullman's scans raise heads over the precedence graph until
/// nothing changes; a model has no rules to stratify; the assignment of a
/// join is the pointwise maximum of its parts'.
pub open spec fn spec_stratify(d: Datalog) -> Option<StrataV>
    decreases d,
{
    match d {
        Datalog::Program(_, rules) => {
            let edges = spec_dep_graph(d);
            spec_strat_run(
                stratum_bound(edges.len() as int),
                spec_init_map(rules@, rules@.len() as int),
                edges,
            )
        },
        Datalog::Model(_) => Some(Map::empty()),
        Datalog::Join(d1, d2) => match (spec_stratify(*d1), spec_stratify(*d2)) {
            (Some(m1), Some(m2)) => Some(spec_merge_max(m1, m2)),
            _ => None,
        },
    }
}

/// All strata of the assignment lie between zero and the bound.
pub open spec fn map_ok(m: StrataV, bound: int) -> bool {
    bound >= 0 && forall|k: PredSymV| m.dom().contains(k) ==> 0 <= #[trigger] m[k] <= bound
}

/// Pointwise: `m2` assigns at least what `m1` assigns.
spec fn map_geq(m2: StrataV, m1: StrataV) -> bool {
    forall|k: PredSymV| #[trigger] lookup0(m2, k) >= lookup0(m1, k)
}

/// How far the edge heads still are from the bound: the scans' termination
/// measure.
spec fn edges_slack(edges: Seq<PrecedenceEdgeV>, m: StrataV, bound: int) -> int
    decreases edges.len(),
{
    if edges.len() == 0 {
        0
    } else {
        (bound - lookup0(m, edge_head(edges.last()))) + edges_slack(edges.drop_last(), m, bound)
    }
}

proof fn lemma_slack_nonneg(edges: Seq<PrecedenceEdgeV>, m: StrataV, bound: int)
    requires
        map_ok(m, bound),
    ensures
        edges_slack(edges, m, bound) >= 0,
    decreases edges.len(),
{
    if edges.len() > 0 {
        lemma_slack_nonneg(edges.drop_last(), m, bound);
    }
}

proof fn lemma_slack_geq(edges: Seq<PrecedenceEdgeV>, m1: StrataV, m2: StrataV, bound: int)
    requires
        map_geq(m2, m1),
    ensures
        edges_slack(edges, m2, bound) <= edges_slack(edges, m1, bound),
    decreases edges.len(),
{
    if edges.len() > 0 {
        lemma_slack_geq(edges.drop_last(), m1, m2, bound);
    }
}

proof fn lemma_slack_strict(
    edges: Seq<PrecedenceEdgeV>,
    m1: StrataV,
    m2: StrataV,
    bound: int,
    j: int,
)
    requires
        map_geq(m2, m1),
        0 <= j < edges.len(),
        lookup0(m2, edge_head(edges[j])) > lookup0(m1, edge_head(edges[j])),
    ensures
        edges_slack(edges, m2, bound) < edges_slack(edges, m1, bound),
    decreases edges.len(),
{
    if j == edges.len() - 1 {
        lemma_slack_geq(edges.drop_last(), m1, m2, bound);
    } else {
        assert(edges.drop_last()[j] == edges[j]);
        lemma_slack_strict(edges.drop_last(), m1, m2, bound, j);
    }
}

/// `m1` is an assignment the scans can pass through on their way from `m0`:
/// any outcome reached from `m1` is reached from `m0` under some fuel.
#[verifier::opaque]
spec fn strat_reaches(bound: int, edges: Seq<PrecedenceEdgeV>, m0: StrataV, m1: StrataV) -> bool {
    forall|k: nat|
        (#[trigger] spec_strat_iter(bound, m1, edges, k)) != StratRes::Pending ==> exists|g: nat|
            spec_strat_iter(bound, m0, edges, g) == spec_strat_iter(bound, m1, edges, k)
}

proof fn lemma_strat_reaches_refl(bound: int, edges: Seq<PrecedenceEdgeV>, m: StrataV)
    ensures
        strat_reaches(bound, edges, m, m),
{
    reveal(strat_reaches);
    assert forall|k: nat| (#[trigger] spec_strat_iter(bound, m, edges, k)) != StratRes::Pending
        implies exists|g: nat|
        spec_strat_iter(bound, m, edges, g) == spec_strat_iter(bound, m, edges, k) by {
        assert(spec_strat_iter(bound, m, edges, k) == spec_strat_iter(bound, m, edges, k));
    }
}

proof fn lemma_strat_reaches_step(
    bound: int,
    edges: Seq<PrecedenceEdgeV>,
    m0: StrataV,
    m1: StrataV,
    m2: StrataV,
)
    requires
        strat_reaches(bound, edges, m0, m1),
        spec_pass(bound, m1, edges, 0) == Some((m2, true)),
    ensures
        strat_reaches(bound, edges, m0, m2),
{
    reveal(strat_reaches);
    assert forall|k: nat| (#[trigger] spec_strat_iter(bound, m2, edges, k)) != StratRes::Pending
        implies exists|g: nat|
        spec_strat_iter(bound, m0, edges, g) == spec_strat_iter(bound, m2, edges, k) by {
        assert(spec_strat_iter(bound, m1, edges, k + 1) == spec_strat_iter(bound, m2, edges, k));
    }
}

proof fn lemma_strat_reaches_result(
    bound: int,
    edges: Seq<PrecedenceEdgeV>,
    m0: StrataV,
    m1: StrataV,
    k: nat,
)
    requires
        strat_reaches(bound, edges, m0, m1),
        spec_strat_iter(bound, m1, edges, k) != StratRes::Pending,
    ensures
        exists|g: nat|
            spec_strat_iter(bound, m0, edges, g) == spec_strat_iter(bound, m1, edges, k),
{
    reveal(strat_reaches);
}

/// The stratum assigned to `s`, or zero when `s` is unassigned.
fn lookup_or_zero(stf: &StratumMap, s: &PredSym) -> (r: i32)
    ensures
        r as int == lookup0(stf@, s@),
{
    match stf.get(s) {
        Some(v) => v,
        None => 0,
    }
}

/// Visit every edge once and enforce its constraint: a weak edge `(b, h)`
/// needs `stratum(b) <= stratum(h)`, a strong edge `stratum(b) <
/// stratum(h)`, raising the head's stratum when violated.  A strong raise
/// past the bound means the graph has a cycle through a strong edge.
/// Repeat until a whole scan changes nothing.
#[verifier::loop_isolation(false)]
#[verifier::rlimit(60)]
#[verifier::spinoff_prover]
fn stratify_helper(g: &PrecedenceGraph, stf: &mut StratumMap) -> (r: Result<(), StratifyError>)
    requires
        map_ok(old(stf)@, stratum_bound(g@.len() as int)),
    ensures
        match r {
            Ok(()) => exists|k: nat|
                spec_strat_iter(stratum_bound(g@.len() as int), old(stf)@, g@, k)
                    == StratRes::Done(final(stf)@),
            Err(_) => exists|k: nat|
                spec_strat_iter(stratum_bound(g@.len() as int), old(stf)@, g@, k)
                    == StratRes::Fail,
        },
{
    let bound: i32 = if g.len() >= i32::MAX as usize {
        i32::MAX
    } else {
        g.len() as i32
    };
    proof {
        assert(bound as int == stratum_bound(g@.len() as int));
        lemma_strat_reaches_refl(bound as int, g@, stf@);
        lemma_slack_nonneg(g@, stf@, bound as int);
    }
    loop
        invariant
            map_ok(stf@, bound as int),
            strat_reaches(bound as int, g@, old(stf)@, stf@),
        decreases edges_slack(g@, stf@, bound as int),
    {
        let ghost m_p0 = stf@;
        let mut changed = false;
        let mut j: usize = 0;
        while j < g.len()
            invariant
                0 <= j <= g@.len(),
                map_ok(stf@, bound as int),
                map_geq(stf@, m_p0),
                changed ==> edges_slack(g@, stf@, bound as int) < edges_slack(
                    g@,
                    m_p0,
                    bound as int,
                ),
                !changed ==> stf@ == m_p0,
                match spec_pass(bound as int, stf@, g@, j as int) {
                    None => spec_pass(bound as int, m_p0, g@, 0) is None,
                    Some(pr) => spec_pass(bound as int, m_p0, g@, 0) == Some(
                        (pr.0, changed || pr.1),
                    ),
                },
            decreases g@.len() - j,
        {
            let edge = g.edge_at(j);
            let ghost m_j = stf@;
            match edge {
                PrecedenceEdge::WeakEdge(bsym, hsym) => {
                    let b = lookup_or_zero(stf, bsym);
                    let h = lookup_or_zero(stf, hsym);
                    if b > h {
                        stf.set(hsym.clone(), b);
                        changed = true;
                        proof {
                            assert forall|k: PredSymV| #[trigger]
                                lookup0(stf@, k) >= lookup0(m_j, k) by {}
                            assert forall|k: PredSymV| #[trigger]
                                lookup0(stf@, k) >= lookup0(m_p0, k) by {
                                assert(lookup0(stf@, k) >= lookup0(m_j, k));
                                assert(lookup0(m_j, k) >= lookup0(m_p0, k));
                            }
                            lemma_slack_strict(g@, m_j, stf@, bound as int, j as int);
                            if m_j != m_p0 {
                                lemma_slack_geq(g@, m_p0, m_j, bound as int);
                            }
                        }
                    }
                },
                PrecedenceEdge::StrongEdge(bsym, hsym) => {
                    let b = lookup_or_zero(stf, bsym);
                    let h = lookup_or_zero(stf, hsym);
                    if b >= h {
                        if b >= bound {
                            proof {
                                assert(spec_pass(bound as int, stf@, g@, j as int) is None);
                                assert(spec_strat_iter(bound as int, m_p0, g@, 0)
                                    == StratRes::Fail);
                                lemma_strat_reaches_result(bound as int, g@, old(stf)@, m_p0, 0);
                            }
                            return Err(StratifyError::StrongCycle);
                        }
                        stf.set(hsym.clone(), b + 1);
                        changed = true;
                        proof {
                            assert forall|k: PredSymV| #[trigger]
                                lookup0(stf@, k) >= lookup0(m_j, k) by {}
                            assert forall|k: PredSymV| #[trigger]
                                lookup0(stf@, k) >= lookup0(m_p0, k) by {
                                assert(lookup0(stf@, k) >= lookup0(m_j, k));
                                assert(lookup0(m_j, k) >= lookup0(m_p0, k));
                            }
                            lemma_slack_strict(g@, m_j, stf@, bound as int, j as int);
                            if m_j != m_p0 {
                                lemma_slack_geq(g@, m_p0, m_j, bound as int);
                            }
                        }
                    }
                },
            }
            j = j + 1;
        }
        if !changed {
            proof {
                assert(spec_pass(bound as int, stf@, g@, g@.len() as int) == Some(
                    (stf@, false),
                ));
                assert(spec_strat_iter(bound as int, m_p0, g@, 0) == StratRes::Done(stf@));
                lemma_strat_reaches_result(bound as int, g@, old(stf)@, m_p0, 0);
            }
            return Ok(());
        }
        proof {
            assert(spec_pass(bound as int, stf@, g@, g@.len() as int) == Some((stf@, false)));
            assert(spec_pass(bound as int, m_p0, g@, 0) == Some((stf@, true)));
            lemma_strat_reaches_step(bound as int, g@, old(stf)@, m_p0, stf@);
            lemma_slack_nonneg(g@, stf@, bound as int);
        }
    }
}

/// The singleton graph one body predicate contributes to the precedence
/// graph, empty for guards and generators.
fn mk_dep_edge(dst: &HeadPredicate, src: &BodyPredicate) -> (r: PrecedenceGraph)
    ensures
        r@ == spec_dep_edge(*dst, *src),
{
    let mut pg = PrecedenceGraph::new();
    match (dst, src) {
        (
            HeadPredicate::HeadAtom(head_sym, _, _),
            BodyPredicate::BodyAtom(body_sym, _, pol, fix, _),
        ) => {
            let weak = match (pol, fix) {
                (crate::datalog::Polarity::Positive, crate::datalog::Fixity::Loose) => true,
                _ => false,
            };
            let edge = if weak {
                PrecedenceEdge::WeakEdge(body_sym.clone(), head_sym.clone())
            } else {
                PrecedenceEdge::StrongEdge(body_sym.clone(), head_sym.clone())
            };
            pg.insert(edge);
            proof {
                assert(pg@ =~= spec_dep_edge(*dst, *src));
            }
        },
        _ => {
            proof {
                assert(pg@ =~= spec_dep_edge(*dst, *src));
            }
        },
    }
    pg
}

/// The precedence graph of one rule: an edge per body atom.
fn precedence_helper(cnst: &Constraint) -> (r: PrecedenceGraph)
    ensures
        r@ == spec_rule_graph(*cnst),
{
    let mut pg = PrecedenceGraph::new();
    match cnst {
        Constraint::Constraint(head, body) => {
            let mut i: usize = 0;
            proof {
                assert(pg@ =~= spec_rule_graph_upto(*cnst, 0));
            }
            while i < body.len()
                invariant
                    0 <= i <= body@.len(),
                    pg@ == spec_rule_graph_upto(*cnst, i as int),
                    *cnst == Constraint::Constraint(*head, *body),
                decreases body@.len() - i,
            {
                let g1 = mk_dep_edge(head, &body[i]);
                pg.extend(g1);
                i = i + 1;
            }
        },
    }
    pg
}

/// The precedence graph of a program: the union of its rules' edges.
fn mk_dep_graph(d: &Datalog) -> (r: PrecedenceGraph)
    ensures
        r@ == spec_dep_graph(*d),
    decreases *d,
{
    match d {
        Datalog::Program(_, rules) => {
            let mut pg = PrecedenceGraph::new();
            let mut i: usize = 0;
            while i < rules.len()
                invariant
                    0 <= i <= rules@.len(),
                    pg@ == spec_rules_graph(rules@, i as int),
                decreases rules@.len() - i,
            {
                let g1 = precedence_helper(&rules[i]);
                pg.extend(g1);
                i = i + 1;
            }
            pg
        },
        Datalog::Model(_) => PrecedenceGraph::new(),
        Datalog::Join(d1, d2) => {
            let mut pg1 = mk_dep_graph(d1);
            let pg2 = mk_dep_graph(d2);
            pg1.extend(pg2);
            pg1
        },
    }
}

proof fn lemma_init_map_zero(rules: Seq<Constraint>, i: int)
    ensures
        forall|k: PredSymV|
            spec_init_map(rules, i).dom().contains(k) ==> spec_init_map(rules, i)[k] == 0,
    decreases i,
{
    if i > 0 {
        lemma_init_map_zero(rules, i - 1);
        assert forall|k: PredSymV| spec_init_map(rules, i).dom().contains(k)
            implies spec_init_map(rules, i)[k] == 0 by {
            if k != head_sym_of(rules[i - 1]) {
                assert(spec_init_map(rules, i - 1).dom().contains(k));
            }
        }
    }
}

/// Compute a stratification with Ullman's algorithm: every rule head starts
/// at stratum zero, and the precedence graph's constraints raise strata
/// until a fixpoint.  Fails exactly when the program has a dependency cycle
/// through a strong edge — a host-compiler invariant violation.
#[verifier::loop_isolation(false)]
#[verifier::rlimit(30)]
#[verifier::spinoff_prover]
pub fn stratify(d: &Datalog) -> (r: Result<StratumMap, StratifyError>)
    ensures
        match r {
            Ok(m) => spec_stratify(*d) == Some(m@),
            Err(_) => spec_stratify(*d) is None,
        },
    decreases *d,
{
    match d {
        Datalog::Program(_, rules) => {
            let mut m = StratumMap::new();
            let mut i: usize = 0;
            proof {
                assert(m@ =~= spec_init_map(rules@, 0));
            }
            while i < rules.len()
                invariant
                    0 <= i <= rules@.len(),
                    m@ == spec_init_map(rules@, i as int),
                decreases rules@.len() - i,
            {
                match &rules[i] {
                    Constraint::Constraint(HeadPredicate::HeadAtom(s, _, _), _) => {
                        m.set(s.clone(), 0);
                    },
                }
                i = i + 1;
            }
            let pg = mk_dep_graph(d);
            let ghost bound = stratum_bound(pg@.len() as int);
            let ghost m0 = m@;
            proof {
                lemma_init_map_zero(rules@, rules@.len() as int);
                assert(map_ok(m0, bound));
            }
            match stratify_helper(&pg, &mut m) {
                Ok(()) => {
                    proof {
                        let k = choose|k: nat|
                            spec_strat_iter(bound, m0, pg@, k) == StratRes::Done(m@);
                        assert(spec_strat_iter(bound, m0, pg@, k) != StratRes::Pending);
                        let k2 = choose|k2: nat|
                            spec_strat_iter(bound, m0, pg@, k2) != StratRes::Pending;
                        lemma_strat_iter_agree(bound, m0, pg@, k, k2);
                        assert(spec_strat_run(bound, m0, pg@) == Some(m@));
                    }
                    Ok(m)
                },
                Err(e) => {
                    proof {
                        let k = choose|k: nat| spec_strat_iter(bound, m0, pg@, k) == StratRes::Fail;
                        assert(spec_strat_iter(bound, m0, pg@, k) != StratRes::Pending);
                        let k2 = choose|k2: nat|
                            spec_strat_iter(bound, m0, pg@, k2) != StratRes::Pending;
                        lemma_strat_iter_agree(bound, m0, pg@, k, k2);
                        assert(spec_strat_run(bound, m0, pg@) is None);
                    }
                    Err(e)
                },
            }
        },
        Datalog::Model(_) => Ok(StratumMap::new()),
        Datalog::Join(d1, d2) => {
            let mut m1 = match stratify(d1) {
                Ok(m1) => m1,
                Err(e) => {
                    return Err(e);
                },
            };
            let m2 = match stratify(d2) {
                Ok(m2) => m2,
                Err(e) => {
                    return Err(e);
                },
            };
            merge_max_into(&mut m1, &m2);
            Ok(m1)
        },
    }
}

/// Whether one of the first `i` entries names `k`.
spec fn key_in_prefix(s: Seq<(PredSymV, i32)>, i: int, k: PredSymV) -> bool {
    exists|j: int| 0 <= j < i && s[j].0 == k
}

/// Raise `m1` to the pointwise maximum of itself and `m2`: union of
/// predicates, larger stratum on overlap.
#[verifier::loop_isolation(false)]
#[verifier::rlimit(60)]
#[verifier::spinoff_prover]
fn merge_max_into(m1: &mut StratumMap, m2: &StratumMap)
    ensures
        final(m1)@ == spec_merge_max(old(m1)@, m2@),
{
    let ghost m1_0 = m1@;
    let ghost s2 = m2.entry_seq();
    proof {
        use_type_invariant(m2);
    }
    let mut i: usize = 0;
    while i < m2.len()
        invariant
            0 <= i <= s2.len(),
            m2.entry_seq() == s2,
            forall|k: PredSymV| #![trigger key_in_prefix(s2, i as int, k)]
                {
                    if key_in_prefix(s2, i as int, k) {
                        m1@.dom().contains(k) && m1@[k] == spec_merge_max(m1_0, m2@)[k]
                    } else {
                        m1@.dom().contains(k) == m1_0.dom().contains(k) && (m1_0.dom().contains(k)
                            ==> m1@[k] == m1_0[k])
                    }
                },
        decreases s2.len() - i,
    {
        let entry = m2.entry_at(i);
        let ghost k_i = entry.0@;
        proof {
            assert(s2[i as int].0 == k_i);
            assert(!key_in_prefix(s2, i as int, k_i)) by {
                if key_in_prefix(s2, i as int, k_i) {
                    let j = choose|j: int| 0 <= j < i && s2[j].0 == k_i;
                    assert(s2[j].0 == s2[i as int].0);
                }
            }
            assert(m1@.dom().contains(k_i) == m1_0.dom().contains(k_i));
            assert(m2@.dom().contains(k_i) && m2@[k_i] == entry.1);
        }
        let ghost m1_pre = m1@;
        match m1.get(&entry.0) {
            Some(v1) => {
                let v = if entry.1 > v1 {
                    entry.1
                } else {
                    v1
                };
                m1.set(entry.0.clone(), v);
                proof {
                    assert(m1_0.dom().contains(k_i));
                    assert(v1 == m1_0[k_i]);
                    assert(m1@[k_i] == spec_merge_max(m1_0, m2@)[k_i]);
                }
            },
            None => {
                m1.set(entry.0.clone(), entry.1);
                proof {
                    assert(!m1_0.dom().contains(k_i));
                    assert(m1@[k_i] == spec_merge_max(m1_0, m2@)[k_i]);
                }
            },
        }
        proof {
            assert forall|k: PredSymV| #![trigger key_in_prefix(s2, i as int + 1, k)]
                {
                    if key_in_prefix(s2, i as int + 1, k) {
                        m1@.dom().contains(k) && m1@[k] == spec_merge_max(m1_0, m2@)[k]
                    } else {
                        m1@.dom().contains(k) == m1_0.dom().contains(k) && (m1_0.dom().contains(k)
                            ==> m1@[k] == m1_0[k])
                    }
                } by {
                if key_in_prefix(s2, i as int + 1, k) {
                    if k != k_i {
                        let j = choose|j: int| 0 <= j < i + 1 && s2[j].0 == k;
                        assert(0 <= j < i && s2[j].0 == k);
                        assert(key_in_prefix(s2, i as int, k));
                        assert(m1_pre.dom().contains(k) && m1_pre[k] == spec_merge_max(
                            m1_0,
                            m2@,
                        )[k]);
                    }
                } else {
                    assert(k != k_i) by {
                        if k == k_i {
                            assert(0 <= i < i + 1 && s2[i as int].0 == k);
                        }
                    }
                    assert(!key_in_prefix(s2, i as int, k)) by {
                        if key_in_prefix(s2, i as int, k) {
                            let j = choose|j: int| 0 <= j < i && s2[j].0 == k;
                            assert(0 <= j < i + 1 && s2[j].0 == k);
                        }
                    }
                }
            }
        }
        i = i + 1;
    }
    proof {
        assert forall|k: PredSymV| #[trigger] m2@.dom().contains(k) implies key_in_prefix(
            s2,
            s2.len() as int,
            k,
        ) by {
            lemma_smap_dom(s2, k);
        }
        assert forall|k: PredSymV| key_in_prefix(s2, s2.len() as int, k) implies m2@.dom()
            .contains(k) by {
            let j = choose|j: int| 0 <= j < s2.len() && s2[j].0 == k;
            lemma_smap_found(s2, j);
        }
        assert forall|k: PredSymV|
            spec_merge_max(m1_0, m2@).dom().contains(k) implies #[trigger] m1@.dom().contains(k)
            && m1@[k] == spec_merge_max(m1_0, m2@)[k] by {
            if m2@.dom().contains(k) {
                assert(key_in_prefix(s2, s2.len() as int, k));
            } else {
                assert(!key_in_prefix(s2, s2.len() as int, k));
            }
        }
        assert forall|k: PredSymV| #[trigger] m1@.dom().contains(k) implies spec_merge_max(
            m1_0,
            m2@,
        ).dom().contains(k) by {
            if key_in_prefix(s2, s2.len() as int, k) {
            } else {
            }
        }
        assert(m1@ =~= spec_merge_max(m1_0, m2@));
    }
}

/// Join homomorphism law: the stratification of `Join(d1, d2)` is the
/// pointwise maximum of the two sub-stratifications — the union of their
/// predicates, with the larger stratum wherever both assign one.
pub proof fn lemma_stratify_join(d1: Datalog, d2: Datalog, m1: StrataV, m2: StrataV)
    requires
        spec_stratify(d1) == Some(m1),
        spec_stratify(d2) == Some(m2),
    ensures
        ({
            let r = spec_stratify(Datalog::Join(Box::new(d1), Box::new(d2)));
            &&& r is Some
            &&& r->Some_0.dom() == m1.dom().union(m2.dom())
            &&& forall|k: PredSymV|
                m1.dom().contains(k) && m2.dom().contains(k) ==> r->Some_0[k] == (if m1[k] >= m2[k] {
                    m1[k]
                } else {
                    m2[k]
                })
            &&& forall|k: PredSymV|
                m1.dom().contains(k) && !m2.dom().contains(k) ==> r->Some_0[k] == m1[k]
            &&& forall|k: PredSymV|
                !m1.dom().contains(k) && m2.dom().contains(k) ==> r->Some_0[k] == m2[k]
        }),
{
    let r = spec_stratify(Datalog::Join(Box::new(d1), Box::new(d2)));
    assert(r == Some(spec_merge_max(m1, m2)));
    assert(spec_merge_max(m1, m2).dom() =~= m1.dom().union(m2.dom()));
}

/// Whether a body predicate is a positive, loose atom (or no atom at all).
pub open spec fn body_pred_positive_loose(bp: BodyPredicate) -> bool {
    match bp {
        BodyPredicate::BodyAtom(_, _, pol, fix, _) => pol is Positive && fix is Loose,
        _ => true,
    }
}

/// Whether every body atom of the constraint is positive and loose.
pub open spec fn rule_positive_loose(c: Constraint) -> bool {
    match c {
        Constraint::Constraint(_, body) => forall|i: int|
            0 <= i < body@.len() ==> body_pred_positive_loose(#[trigger] body@[i]),
    }
}

/// Whether every edge is weak.
spec fn all_weak(edges: Seq<PrecedenceEdgeV>) -> bool {
    forall|i: int| 0 <= i < edges.len() ==> (#[trigger] edges[i]) is WeakEdge
}

proof fn lemma_insert_weak(s: Seq<PrecedenceEdgeV>, e: PrecedenceEdgeV)
    requires
        all_weak(s),
        e is WeakEdge,
    ensures
        all_weak(graph_insert(s, e)),
{
}

proof fn lemma_extend_weak(s: Seq<PrecedenceEdgeV>, t: Seq<PrecedenceEdgeV>)
    requires
        all_weak(s),
        all_weak(t),
    ensures
        all_weak(graph_extend(s, t)),
    decreases t.len(),
{
    if t.len() > 0 {
        lemma_insert_weak(s, t[0]);
        assert(all_weak(t.skip(1)));
        lemma_extend_weak(graph_insert(s, t[0]), t.skip(1));
    }
}

/// The body predicates of a constraint.
pub open spec fn body_of(c: Constraint) -> Seq<BodyPredicate> {
    match c {
        Constraint::Constraint(_, body) => body@,
    }
}

proof fn lemma_rule_graph_weak(cnst: Constraint, i: int)
    requires
        rule_positive_loose(cnst),
        i <= body_of(cnst).len(),
    ensures
        all_weak(spec_rule_graph_upto(cnst, i)),
    decreases i,
{
    if i > 0 {
        lemma_rule_graph_weak(cnst, i - 1);
        match cnst {
            Constraint::Constraint(head, body) => {
                assert(body_pred_positive_loose(body@[i - 1]));
                lemma_extend_weak(
                    spec_rule_graph_upto(cnst, i - 1),
                    spec_dep_edge(head, body@[i - 1]),
                );
            },
        }
    }
}

proof fn lemma_rules_graph_weak(rules: Seq<Constraint>, i: int)
    requires
        forall|j: int| 0 <= j < rules.len() ==> rule_positive_loose(#[trigger] rules[j]),
        i <= rules.len(),
    ensures
        all_weak(spec_rules_graph(rules, i)),
    decreases i,
{
    if i > 0 {
        lemma_rules_graph_weak(rules, i - 1);
        match rules[i - 1] {
            Constraint::Constraint(_, body) => {
                lemma_rule_graph_weak(rules[i - 1], body@.len() as int);
            },
        }
        lemma_extend_weak(spec_rules_graph(rules, i - 1), spec_rule_graph(rules[i - 1]));
    }
}

proof fn lemma_pass_weak_zero(bound: int, m: StrataV, edges: Seq<PrecedenceEdgeV>, i: int)
    requires
        all_weak(edges),
        forall|k: PredSymV| #[trigger] lookup0(m, k) == 0,
    ensures
        spec_pass(bound, m, edges, i) == Some((m, false)),
    decreases edges.len() - i,
{
    if 0 <= i < edges.len() {
        assert(edges[i] is WeakEdge);
        lemma_pass_weak_zero(bound, m, edges, i + 1);
    }
}

/// No-negation baseline law: a program whose rules have only positive,
/// loose body atoms assigns stratum zero to every predicate.
pub proof fn lemma_no_negation_baseline(facts: Vec<Constraint>, rules: Vec<Constraint>)
    requires
        forall|j: int| 0 <= j < rules@.len() ==> rule_positive_loose(#[trigger] rules@[j]),
    ensures
        ({
            let r = spec_stratify(Datalog::Program(facts, rules));
            &&& r is Some
            &&& forall|k: PredSymV|
                r->Some_0.dom().contains(k) ==> r->Some_0[k] == 0
        }),
{
    let d = Datalog::Program(facts, rules);
    let edges = spec_dep_graph(d);
    let bound = stratum_bound(edges.len() as int);
    let m0 = spec_init_map(rules@, rules@.len() as int);
    lemma_rules_graph_weak(rules@, rules@.len() as int);
    lemma_init_map_zero(rules@, rules@.len() as int);
    assert forall|k: PredSymV| #[trigger] lookup0(m0, k) == 0 by {}
    lemma_pass_weak_zero(bound, m0, edges, 0);
    assert(spec_strat_iter(bound, m0, edges, 0) == StratRes::Done(m0));
    let k2 = choose|k2: nat| spec_strat_iter(bound, m0, edges, k2) != StratRes::Pending;
    lemma_strat_iter_agree(bound, m0, edges, 0, k2);
    assert(spec_strat_run(bound, m0, edges) == Some(m0));
}

} // verus!
