use vstd::prelude::*;

use crate::shared::{Value, ValueV};

verus! {

/// The transient environment of one `Insert` evaluation: a tuple binding
/// and a lattice-value binding per loop nesting depth, sized once from the
/// operation tree's maximum depth.
#[derive(Debug)]
pub struct SearchEnv {
    tuples: Vec<Vec<Value>>,
    lats: Vec<Value>,
}

impl View for SearchEnv {
    type V = (Seq<Seq<ValueV>>, Seq<ValueV>);

    closed spec fn view(&self) -> (Seq<Seq<ValueV>>, Seq<ValueV>) {
        (self.tuples.deep_view(), self.lats.deep_view())
    }
}

impl SearchEnv {
    /// An environment with one empty tuple slot and one default lattice
    /// slot per nesting level.
    pub fn new(level: usize) -> (r: Self)
        ensures
            r@.0.len() == level,
            r@.1.len() == level,
            forall|i: int| 0 <= i < level ==> r@.0[i] == Seq::<ValueV>::empty(),
            forall|i: int| 0 <= i < level ==> r@.1[i] == ValueV::Bool(false),
    {
        let mut tuples: Vec<Vec<Value>> = Vec::new();
        let mut lats: Vec<Value> = Vec::new();
        let mut i: usize = 0;
        while i < level
            invariant
                0 <= i <= level,
                tuples.deep_view().len() == i,
                lats.deep_view().len() == i,
                forall|j: int| 0 <= j < i ==> tuples.deep_view()[j] == Seq::<ValueV>::empty(),
                forall|j: int| 0 <= j < i ==> lats.deep_view()[j] == ValueV::Bool(false),
            decreases level - i,
        {
            let ghost pre_t = tuples.deep_view();
            let ghost pre_l = lats.deep_view();
            tuples.push(Vec::new());
            lats.push(Value::default());
            proof {
                assert(tuples.deep_view() =~~= pre_t.push(Seq::<ValueV>::empty()));
                assert(lats.deep_view() =~= pre_l.push(ValueV::Bool(false)));
            }
            i = i + 1;
        }
        SearchEnv { tuples, lats }
    }

    /// How many nesting levels the environment holds.
    pub fn depth(&self) -> (r: usize)
        ensures
            r == self@.0.len(),
    {
        self.tuples.len()
    }

    /// How many lattice-value slots the environment holds.
    pub fn lat_depth(&self) -> (r: usize)
        ensures
            r == self@.1.len(),
    {
        self.lats.len()
    }

    /// The length of the tuple bound at depth `i`.
    pub fn tuple_len(&self, i: usize) -> (r: usize)
        requires
            i < self@.0.len(),
        ensures
            r == self@.0[i as int].len(),
    {
        self.tuples[i].len()
    }

    /// Read position `j` of the tuple bound at depth `i`.
    pub fn get_tuple_var(&self, i: usize, j: usize) -> (r: &Value)
        requires
            i < self@.0.len(),
            j < self@.0[i as int].len(),
        ensures
            r@ == self@.0[i as int][j as int],
    {
        &self.tuples[i][j]
    }

    /// Read the lattice value bound at depth `i`.
    pub fn get_lat_var(&self, i: usize) -> (r: &Value)
        requires
            i < self@.1.len(),
        ensures
            r@ == self@.1[i as int],
    {
        &self.lats[i]
    }

    /// Bind the tuple `vals` at depth `i`.
    pub fn update_tuple_env(&mut self, i: usize, vals: Vec<Value>)
        requires
            i < old(self)@.0.len(),
        ensures
            final(self)@.0 == old(self)@.0.update(i as int, vals.deep_view()),
            final(self)@.1 == old(self)@.1,
    {
        let mut tuples: Vec<Vec<Value>> = Vec::new();
        std::mem::swap(&mut tuples, &mut self.tuples);
        tuples[i] = vals;
        self.tuples = tuples;
        proof {
            assert(self@.0 =~= old(self)@.0.update(i as int, self.tuples@[i as int].deep_view()));
        }
    }

    /// Bind the lattice value `val` at depth `i`.
    pub fn update_lat_env(&mut self, i: usize, val: Value)
        requires
            i < old(self)@.1.len(),
        ensures
            final(self)@.1 == old(self)@.1.update(i as int, val@),
            final(self)@.0 == old(self)@.0,
    {
        let mut lats: Vec<Value> = Vec::new();
        std::mem::swap(&mut lats, &mut self.lats);
        lats[i] = val;
        self.lats = lats;
        proof {
            assert(self@.1 =~= old(self)@.1.update(i as int, self.lats@[i as int]@));
        }
    }
}

} // verus!
