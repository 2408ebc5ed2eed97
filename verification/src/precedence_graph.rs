use vstd::prelude::*;

use crate::shared::{PredSym, PredSymV};

verus! {

/// A dependency of one predicate on another, read off a rule: a strong edge
/// (from a negative or fixed body atom) forces the head into a strictly
/// higher stratum than the body; a weak edge (positive, loose) allows the
/// same stratum.  Each edge runs from body to head.
#[derive(Debug)]
pub enum PrecedenceEdge {
    StrongEdge(PredSym, PredSym),
    WeakEdge(PredSym, PredSym),
}

/// The mathematical image of a [`PrecedenceEdge`].
pub enum PrecedenceEdgeV {
    StrongEdge(PredSymV, PredSymV),
    WeakEdge(PredSymV, PredSymV),
}

impl View for PrecedenceEdge {
    type V = PrecedenceEdgeV;

    open spec fn view(&self) -> PrecedenceEdgeV {
        match self {
            PrecedenceEdge::StrongEdge(b, h) => PrecedenceEdgeV::StrongEdge(b@, h@),
            PrecedenceEdge::WeakEdge(b, h) => PrecedenceEdgeV::WeakEdge(b@, h@),
        }
    }
}

impl DeepView for PrecedenceEdge {
    type V = PrecedenceEdgeV;

    open spec fn deep_view(&self) -> PrecedenceEdgeV {
        self@
    }
}

impl Clone for PrecedenceEdge {
    fn clone(&self) -> (r: Self)
        ensures
            r == *self,
    {
        match self {
            PrecedenceEdge::StrongEdge(b, h) => PrecedenceEdge::StrongEdge(b.clone(), h.clone()),
            PrecedenceEdge::WeakEdge(b, h) => PrecedenceEdge::WeakEdge(b.clone(), h.clone()),
        }
    }
}

impl PrecedenceEdge {
    /// Structural equality of two edges.
    pub fn eq_edge(&self, other: &PrecedenceEdge) -> (r: bool)
        ensures
            r == (self@ == other@),
    {
        match (self, other) {
            (PrecedenceEdge::StrongEdge(b1, h1), PrecedenceEdge::StrongEdge(b2, h2)) => b1.eq_sym(
                b2,
            ) && h1.eq_sym(h2),
            (PrecedenceEdge::WeakEdge(b1, h1), PrecedenceEdge::WeakEdge(b2, h2)) => b1.eq_sym(b2)
                && h1.eq_sym(h2),
            _ => false,
        }
    }
}

/// Whether the edge sequence already holds `e`.
pub open spec fn graph_contains(s: Seq<PrecedenceEdgeV>, e: PrecedenceEdgeV) -> bool {
    exists|i: int| 0 <= i < s.len() && s[i] == e
}

/// Add an edge to the sequence unless it is already there.
pub open spec fn graph_insert(s: Seq<PrecedenceEdgeV>, e: PrecedenceEdgeV) -> Seq<
    PrecedenceEdgeV,
> {
    if graph_contains(s, e) {
        s
    } else {
        s.push(e)
    }
}

/// Add every edge of `t` to `s`, in order, each unless already there.
pub open spec fn graph_extend(s: Seq<PrecedenceEdgeV>, t: Seq<PrecedenceEdgeV>) -> Seq<
    PrecedenceEdgeV,
>
    decreases t.len(),
{
    if t.len() == 0 {
        s
    } else {
        graph_extend(graph_insert(s, t[0]), t.skip(1))
    }
}

/// The precedence graph of a program: a set of edges, kept in the order
/// they were first inserted.
#[derive(Debug)]
pub struct PrecedenceGraph {
    edges: Vec<PrecedenceEdge>,
}

impl View for PrecedenceGraph {
    type V = Seq<PrecedenceEdgeV>;

    closed spec fn view(&self) -> Seq<PrecedenceEdgeV> {
        self.edges.deep_view()
    }
}

impl PrecedenceGraph {
    /// A graph with no edges.
    pub fn new() -> (r: Self)
        ensures
            r@ == Seq::<PrecedenceEdgeV>::empty(),
    {
        PrecedenceGraph { edges: Vec::new() }
    }

    /// How many distinct edges the graph holds.
    pub fn len(&self) -> (r: usize)
        ensures
            r == self@.len(),
    {
        self.edges.len()
    }

    /// The edge at position `i`, in first-insertion order.
    pub fn edge_at(&self, i: usize) -> (r: &PrecedenceEdge)
        requires
            i < self@.len(),
        ensures
            r@ == self@[i as int],
    {
        &self.edges[i]
    }

    /// Add an edge, returning whether it was new.
    pub fn insert(&mut self, value: PrecedenceEdge) -> (r: bool)
        ensures
            final(self)@ == graph_insert(old(self)@, value@),
            r == !graph_contains(old(self)@, value@),
    {
        let mut i: usize = 0;
        while i < self.edges.len()
            invariant
                0 <= i <= self@.len(),
                self@.len() == self.edges.len(),
                forall|j: int| 0 <= j < i ==> self@[j] != value@,
            decreases self.edges.len() - i,
        {
            if self.edges[i].eq_edge(&value) {
                proof {
                    assert(self@[i as int] == value@);
                    assert(graph_contains(self@, value@));
                }
                return false;
            }
            i = i + 1;
        }
        let ghost s0 = self@;
        self.edges.push(value);
        proof {
            assert(self@ =~= s0.push(value@));
        }
        true
    }

    /// Fold another graph's edges into this one.
    pub fn extend(&mut self, other: PrecedenceGraph)
        ensures
            final(self)@ == graph_extend(old(self)@, other@),
    {
        let ghost t = other@;
        proof {
            assert(t.skip(0) =~= t);
        }
        let mut i: usize = 0;
        while i < other.edges.len()
            invariant
                0 <= i <= t.len(),
                other@ == t,
                other@.len() == other.edges.len(),
                graph_extend(old(self)@, t) == graph_extend(self@, t.skip(i as int)),
            decreases other.edges.len() - i,
        {
            proof {
                assert(t.skip(i as int)[0] == t[i as int]);
                assert(t.skip(i as int).skip(1) =~= t.skip(i as int + 1));
            }
            self.insert(other.edges[i].clone());
            i = i + 1;
        }
        proof {
            assert(t.skip(i as int).len() == 0);
        }
    }
}

} // verus!
