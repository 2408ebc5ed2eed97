use vstd::prelude::*;

use crate::ram::{RamSym, SymKey};
use crate::shared::{Value, ValueV};

verus! {

/// The mathematical image of one relation: its rows in insertion order.
/// Each row pairs a tuple with the stored value — the default mark for
/// relational tuples, the lattice element for latticenal ones.
pub type RowsV = Seq<(Seq<ValueV>, ValueV)>;

/// The mathematical image of a database: relation identity to rows.
pub type DbV = Map<SymKey, RowsV>;

/// First-match lookup of a tuple in a row sequence.
pub open spec fn rows_lookup(rows: RowsV, key: Seq<ValueV>) -> Option<ValueV>
    decreases rows.len(),
{
    if rows.len() == 0 {
        None
    } else if rows[0].0 == key {
        Some(rows[0].1)
    } else {
        rows_lookup(rows.skip(1), key)
    }
}

/// Index of the first row holding `key`; meaningful only when the lookup
/// succeeds.
pub open spec fn rows_index_of(rows: RowsV, key: Seq<ValueV>) -> int
    decreases rows.len(),
{
    if rows.len() == 0 {
        0
    } else if rows[0].0 == key {
        0
    } else {
        1 + rows_index_of(rows.skip(1), key)
    }
}

/// Store `val` under `key`: replace the first row holding `key`, or append
/// a new row when the tuple is absent.
pub open spec fn rows_store(rows: RowsV, key: Seq<ValueV>, val: ValueV) -> RowsV {
    if rows_lookup(rows, key) is Some {
        rows.update(rows_index_of(rows, key), (key, val))
    } else {
        rows.push((key, val))
    }
}

/// No two rows hold the same tuple.
pub open spec fn rows_unique(rows: RowsV) -> bool {
    forall|i: int, j: int| 0 <= i < j < rows.len() ==> rows[i].0 != rows[j].0
}

/// The rows stored for `key`, or no rows when the relation is absent: an
/// absent relation is treated as an empty one throughout.
pub open spec fn db_rows_or_empty(db: DbV, key: SymKey) -> RowsV {
    if db.dom().contains(key) {
        db[key]
    } else {
        Seq::empty()
    }
}

proof fn lemma_rows_lookup_index(rows: RowsV, key: Seq<ValueV>)
    requires
        rows_lookup(rows, key) is Some,
    ensures
        0 <= rows_index_of(rows, key) < rows.len(),
        rows[rows_index_of(rows, key)].0 == key,
        rows[rows_index_of(rows, key)].1 == rows_lookup(rows, key)->Some_0,
        forall|j: int| 0 <= j < rows_index_of(rows, key) ==> (#[trigger] rows[j]).0 != key,
    decreases rows.len(),
{
    if rows.len() == 0 {
    } else if rows[0].0 == key {
    } else {
        lemma_rows_lookup_index(rows.skip(1), key);
        assert forall|j: int| 0 <= j < rows_index_of(rows, key) implies (#[trigger] rows[j]).0
            != key by {
            if j > 0 {
                assert(rows.skip(1)[j - 1] == rows[j]);
            }
        }
    }
}

/// One relation of the database: a tuple-to-value store kept in insertion
/// order, looked up by the first matching tuple.
#[derive(Debug)]
pub struct Relations {
    rows: Vec<(Vec<Value>, Value)>,
}

impl View for Relations {
    type V = RowsV;

    closed spec fn view(&self) -> RowsV {
        self.rows.deep_view()
    }
}

impl Relations {
    /// An empty relation.
    pub fn new() -> (r: Self)
        ensures
            r@ == RowsV::empty(),
    {
        Relations { rows: Vec::new() }
    }

    /// The number of rows.
    pub fn len(&self) -> (r: usize)
        ensures
            r == self@.len(),
    {
        self.rows.len()
    }

    /// True when the relation holds no rows.
    pub fn is_empty(&self) -> (r: bool)
        ensures
            r == (self@.len() == 0),
    {
        self.rows.len() == 0
    }

    /// The row at position `i`, in insertion order.
    pub fn row_at(&self, i: usize) -> (r: &(Vec<Value>, Value))
        requires
            i < self@.len(),
        ensures
            r.deep_view() == self@[i as int],
    {
        &self.rows[i]
    }

    /// The value stored for `key`, if any.
    pub fn get(&self, key: &Vec<Value>) -> (r: Option<&Value>)
        ensures
            match r {
                Some(v) => rows_lookup(self@, key.deep_view()) == Some(v@),
                None => rows_lookup(self@, key.deep_view()) is None,
            },
    {
        let ghost keyv = key.deep_view();
        proof {
            assert(self@.skip(0) =~= self@);
        }
        let mut i: usize = 0;
        while i < self.rows.len()
            invariant
                0 <= i <= self.rows.len(),
                self@.len() == self.rows.len(),
                rows_lookup(self@, keyv) == rows_lookup(self@.skip(i as int), keyv),
                keyv == key.deep_view(),
            decreases self.rows.len() - i,
        {
            let row = &self.rows[i];
            proof {
                assert(self@.skip(i as int)[0] == self@[i as int]);
                assert(self@.skip(i as int).skip(1) =~= self@.skip(i as int + 1));
            }
            if row_eq(&row.0, key) {
                return Some(&row.1);
            }
            i = i + 1;
        }
        proof {
            assert(self@.skip(i as int).len() == 0);
        }
        None
    }

    /// Store `val` under `key`: replace the first row holding `key`, or
    /// append a new row.
    pub fn store(&mut self, key: Vec<Value>, val: Value)
        ensures
            final(self)@ == rows_store(old(self)@, key.deep_view(), val@),
            rows_unique(old(self)@) ==> rows_unique(final(self)@),
    {
        let ghost keyv = key.deep_view();
        let ghost rows0 = self@;
        proof {
            assert(rows0.skip(0) =~= rows0);
        }
        let mut i: usize = 0;
        while i < self.rows.len()
            invariant
                0 <= i <= self.rows.len(),
                self@.len() == self.rows.len(),
                self@ == rows0,
                rows0 == old(self)@,
                rows_lookup(rows0, keyv) == rows_lookup(rows0.skip(i as int), keyv),
                rows_index_of(rows0, keyv) == i + rows_index_of(rows0.skip(i as int), keyv),
                keyv == key.deep_view(),
            decreases self.rows.len() - i,
        {
            proof {
                assert(rows0.skip(i as int)[0] == rows0[i as int]);
                assert(rows0.skip(i as int).skip(1) =~= rows0.skip(i as int + 1));
            }
            let hit = row_eq(&self.rows[i].0, &key);
            if hit {
                proof {
                    assert(rows0[i as int].0 == keyv);
                    assert(rows_lookup(rows0, keyv) is Some);
                    assert(rows_index_of(rows0, keyv) == i as int);
                }
                self.rows[i] = (key, val);
                proof {
                    assert(self@ =~= rows_store(rows0, keyv, val@));
                    assert forall|a: int|
                        0 <= a < self@.len() implies self@[a].0 == rows0[a].0 by {}
                    if rows_unique(rows0) {
                        assert forall|a: int, b: int|
                            0 <= a < b < self@.len() implies self@[a].0 != self@[b].0 by {
                            assert(self@[a].0 == rows0[a].0);
                            assert(self@[b].0 == rows0[b].0);
                        }
                    }
                }
                return ;
            }
            i = i + 1;
        }
        proof {
            assert(rows0.skip(i as int).len() == 0);
        }
        self.rows.push((key, val));
        proof {
            assert(self@ =~= rows0.push((keyv, val@)));
            if rows_unique(rows0) {
                assert forall|a: int, b: int|
                    0 <= a < b < self@.len() implies self@[a].0 != self@[b].0 by {
                    if b == rows0.len() {
                        lemma_lookup_none_no_key(rows0, keyv, a);
                    }
                }
            }
        }
    }
}

/// Looking up a tuple right after storing it yields the stored value.
pub proof fn lemma_store_lookup(rows: RowsV, key: Seq<ValueV>, val: ValueV)
    ensures
        rows_lookup(rows_store(rows, key, val), key) == Some(val),
{
    if rows_lookup(rows, key) is Some {
        lemma_rows_lookup_index(rows, key);
        lemma_lookup_update_hit(rows, rows_index_of(rows, key), key, val);
    } else {
        lemma_lookup_push_same(rows, key, val);
    }
}

proof fn lemma_lookup_update_hit(rows: RowsV, idx: int, key: Seq<ValueV>, val: ValueV)
    requires
        0 <= idx < rows.len(),
        rows[idx].0 == key,
        forall|j: int| 0 <= j < idx ==> rows[j].0 != key,
    ensures
        rows_lookup(rows.update(idx, (key, val)), key) == Some(val),
    decreases rows.len(),
{
    let stored = rows.update(idx, (key, val));
    if idx == 0 {
        assert(stored[0] == (key, val));
    } else {
        assert(stored[0] == rows[0]);
        assert(stored.skip(1) =~= rows.skip(1).update(idx - 1, (key, val)));
        lemma_lookup_update_hit(rows.skip(1), idx - 1, key, val);
    }
}

proof fn lemma_lookup_push_same(rows: RowsV, key: Seq<ValueV>, val: ValueV)
    requires
        rows_lookup(rows, key) is None,
    ensures
        rows_lookup(rows.push((key, val)), key) == Some(val),
    decreases rows.len(),
{
    if rows.len() == 0 {
        assert(rows.push((key, val))[0] == (key, val));
    } else {
        lemma_lookup_none_no_key(rows, key, 0);
        assert(rows.push((key, val))[0] == rows[0]);
        assert(rows.push((key, val)).skip(1) =~= rows.skip(1).push((key, val)));
        lemma_lookup_push_same(rows.skip(1), key, val);
    }
}

/// Storing one tuple leaves every other tuple's stored value alone.
pub proof fn lemma_store_lookup_other(rows: RowsV, key: Seq<ValueV>, val: ValueV, key2: Seq<ValueV>)
    requires
        key2 != key,
    ensures
        rows_lookup(rows_store(rows, key, val), key2) == rows_lookup(rows, key2),
{
    if rows_lookup(rows, key) is Some {
        lemma_rows_lookup_index(rows, key);
        lemma_lookup_update_other(rows, rows_index_of(rows, key), key, val, key2);
    } else {
        lemma_lookup_push_other(rows, key, val, key2);
    }
}

proof fn lemma_lookup_update_other(
    rows: RowsV,
    idx: int,
    key: Seq<ValueV>,
    val: ValueV,
    key2: Seq<ValueV>,
)
    requires
        0 <= idx < rows.len(),
        rows[idx].0 == key,
        key2 != key,
    ensures
        rows_lookup(rows.update(idx, (key, val)), key2) == rows_lookup(rows, key2),
    decreases rows.len(),
{
    let stored = rows.update(idx, (key, val));
    if idx == 0 {
        assert(stored[0] == (key, val));
        assert(stored.skip(1) =~= rows.skip(1));
    } else {
        assert(stored[0] == rows[0]);
        assert(stored.skip(1) =~= rows.skip(1).update(idx - 1, (key, val)));
        lemma_lookup_update_other(rows.skip(1), idx - 1, key, val, key2);
    }
}

proof fn lemma_lookup_push_other(rows: RowsV, key: Seq<ValueV>, val: ValueV, key2: Seq<ValueV>)
    requires
        key2 != key,
    ensures
        rows_lookup(rows.push((key, val)), key2) == rows_lookup(rows, key2),
    decreases rows.len(),
{
    if rows.len() == 0 {
        assert(rows.push((key, val))[0] == (key, val));
        assert(rows.push((key, val)).skip(1) =~= Seq::<(Seq<ValueV>, ValueV)>::empty());
        assert(rows_lookup(rows.push((key, val)).skip(1), key2) is None);
        assert(rows_lookup(rows.push((key, val)), key2) is None);
        assert(rows_lookup(rows, key2) is None);
    } else {
        assert(rows.push((key, val))[0] == rows[0]);
        assert(rows.push((key, val)).skip(1) =~= rows.skip(1).push((key, val)));
        lemma_lookup_push_other(rows.skip(1), key, val, key2);
    }
}

/// A tuple not found by lookup occurs in no row./// A tuple not found by lookup occurs in no row.
proof fn lemma_lookup_none_no_key(rows: RowsV, key: Seq<ValueV>, i: int)
    requires
        rows_lookup(rows, key) is None,
        0 <= i < rows.len(),
    ensures
        rows[i].0 != key,
    decreases rows.len(),
{
    if i > 0 {
        lemma_lookup_none_no_key(rows.skip(1), key, i - 1);
    }
}

impl Clone for Relations {
    fn clone(&self) -> (r: Self)
        ensures
            r@ == self@,
    {
        let mut rows: Vec<(Vec<Value>, Value)> = Vec::new();
        let mut i: usize = 0;
        while i < self.rows.len()
            invariant
                0 <= i <= self.rows.len(),
                self@.len() == self.rows.len(),
                rows.deep_view() == self@.take(i as int),
            decreases self.rows.len() - i,
        {
            let row = &self.rows[i];
            rows.push((clone_row(&row.0), row.1.clone()));
            proof {
                assert(self@.take(i as int + 1) =~= self@.take(i as int).push(self@[i as int]));
                assert(rows.deep_view() =~~= self@.take(i as int).push(self@[i as int]));
            }
            i = i + 1;
        }
        proof {
            assert(self@.take(self.rows.len() as int) =~= self@);
        }
        Relations { rows }
    }
}

/// Structural equality of two tuples of values.
pub fn row_eq(a: &Vec<Value>, b: &Vec<Value>) -> (r: bool)
    ensures
        r == (a.deep_view() == b.deep_view()),
{
    if a.len() != b.len() {
        proof {
            assert(a.deep_view().len() != b.deep_view().len());
        }
        return false;
    }
    let mut i: usize = 0;
    while i < a.len()
        invariant
            0 <= i <= a@.len(),
            a@.len() == b@.len(),
            forall|j: int| 0 <= j < i ==> a.deep_view()[j] == b.deep_view()[j],
        decreases a@.len() - i,
    {
        if !a[i].eq_value(&b[i]) {
            proof {
                assert(a.deep_view()[i as int] != b.deep_view()[i as int]);
            }
            return false;
        }
        i = i + 1;
    }
    proof {
        assert(a.deep_view() =~= b.deep_view());
    }
    true
}

/// Copy a tuple of values.
pub fn clone_row(v: &Vec<Value>) -> (r: Vec<Value>)
    ensures
        r@ == v@,
{
    let mut r: Vec<Value> = Vec::new();
    let mut i: usize = 0;
    while i < v.len()
        invariant
            0 <= i <= v@.len(),
            r@ == v@.take(i as int),
        decreases v@.len() - i,
    {
        r.push(v[i].clone());
        proof {
            assert(r@ =~= v@.take(i as int + 1));
        }
        i = i + 1;
    }
    proof {
        assert(v@.take(v@.len() as int) =~= v@);
    }
    r
}

/// The mutable store a RAM program runs against: a mapping from relation
/// identity to that relation's rows.  Created empty at the start of an
/// evaluation and handed back to the host at the end.
#[derive(Debug)]
pub struct Database {
    rels: Vec<(RamSym, Relations)>,
}

/// The database image of an association sequence, later entries winning.
pub open spec fn db_view_of(s: Seq<(RamSym, Relations)>) -> DbV
    decreases s.len(),
{
    if s.len() == 0 {
        Map::empty()
    } else {
        db_view_of(s.drop_last()).insert(s.last().0.key(), s.last().1@)
    }
}

impl View for Database {
    type V = DbV;

    closed spec fn view(&self) -> DbV {
        db_view_of(self.rels@)
    }
}

/// No two entries name the same relation.
pub open spec fn db_unique(s: Seq<(RamSym, Relations)>) -> bool {
    forall|i: int, j: int| 0 <= i < j < s.len() ==> s[i].0.key() != s[j].0.key()
}

/// A key under no entry is not in the database image.
proof fn lemma_db_view_absent(s: Seq<(RamSym, Relations)>, k: SymKey)
    requires
        forall|i: int| 0 <= i < s.len() ==> s[i].0.key() != k,
    ensures
        !db_view_of(s).dom().contains(k),
    decreases s.len(),
{
    if s.len() > 0 {
        lemma_db_view_absent(s.drop_last(), k);
    }
}

/// The database image holds each entry's rows under its key.
proof fn lemma_db_view_found(s: Seq<(RamSym, Relations)>, i: int, k: SymKey)
    requires
        db_unique(s),
        0 <= i < s.len(),
        s[i].0.key() == k,
    ensures
        db_view_of(s).dom().contains(k),
        db_view_of(s)[k] == s[i].1@,
    decreases s.len(),
{
    if i < s.len() - 1 {
        lemma_db_view_found(s.drop_last(), i, k);
    }
}

/// Replacing the entry holding `k` updates the image at `k` alone.
proof fn lemma_db_view_update(s: Seq<(RamSym, Relations)>, i: int, sym: RamSym, rel: Relations)
    requires
        db_unique(s),
        0 <= i < s.len(),
        sym.key() == s[i].0.key(),
    ensures
        db_view_of(s.update(i, (sym, rel))) == db_view_of(s).insert(sym.key(), rel@),
        db_unique(s.update(i, (sym, rel))),
    decreases s.len(),
{
    let s2 = s.update(i, (sym, rel));
    if i == s.len() - 1 {
        assert(s2.drop_last() =~= s.drop_last());
        assert(db_view_of(s2) =~= db_view_of(s).insert(sym.key(), rel@));
    } else {
        lemma_db_view_update(s.drop_last(), i, sym, rel);
        assert(s2.drop_last() =~= s.drop_last().update(i, (sym, rel)));
        assert(s2.last() == s.last());
        assert(s[i].0.key() != s.last().0.key());
        assert(db_view_of(s2) =~= db_view_of(s).insert(sym.key(), rel@));
    }
}

/// Appending an entry for a fresh key inserts it into the image.
proof fn lemma_db_view_push(s: Seq<(RamSym, Relations)>, sym: RamSym, rel: Relations)
    requires
        db_unique(s),
        forall|i: int| 0 <= i < s.len() ==> s[i].0.key() != sym.key(),
    ensures
        db_view_of(s.push((sym, rel))) == db_view_of(s).insert(sym.key(), rel@),
        db_unique(s.push((sym, rel))),
    decreases s.len(),
{
    let s2 = s.push((sym, rel));
    assert(s2.drop_last() =~= s);
    assert(s2.last() == (sym, rel));
}

/// Removing the entry holding `k` removes `k` from the image.
proof fn lemma_db_view_remove(s: Seq<(RamSym, Relations)>, i: int, k: SymKey)
    requires
        db_unique(s),
        0 <= i < s.len(),
        s[i].0.key() == k,
    ensures
        db_view_of(s.remove(i)) == db_view_of(s).remove(k),
        db_unique(s.remove(i)),
    decreases s.len(),
{
    let s2 = s.remove(i);
    if i == s.len() - 1 {
        assert(s2 =~= s.drop_last());
        lemma_db_view_absent(s.drop_last(), k);
        assert(db_view_of(s.drop_last()).remove(k) =~= db_view_of(s.drop_last()));
        assert(db_view_of(s).remove(k) =~= db_view_of(s.drop_last()));
    } else {
        lemma_db_view_remove(s.drop_last(), i, k);
        assert(s2.drop_last() =~= s.drop_last().remove(i));
        assert(s2.last() == s.last());
        assert(s.last().0.key() != k);
        assert(db_view_of(s2) =~= db_view_of(s).remove(k));
    }
}

impl Database {
    /// Every database keeps one entry per relation identity.
    #[verifier::type_invariant]
    spec fn wf(self) -> bool {
        db_unique(self.rels@)
    }

    /// An empty database.
    pub fn new() -> (r: Self)
        ensures
            r@ == DbV::empty(),
    {
        Database { rels: Vec::new() }
    }

    /// The position of the entry for `k`, if one exists.
    fn find(&self, k: &RamSym) -> (r: Option<usize>)
        ensures
            match r {
                Some(i) => 0 <= i < self.rels@.len() && self.rels@[i as int].0.key() == k.key(),
                None => forall|j: int|
                    0 <= j < self.rels@.len() ==> self.rels@[j].0.key() != k.key(),
            },
    {
        let mut i: usize = 0;
        while i < self.rels.len()
            invariant
                0 <= i <= self.rels@.len(),
                forall|j: int| 0 <= j < i ==> self.rels@[j].0.key() != k.key(),
            decreases self.rels@.len() - i,
        {
            if self.rels[i].0 == *k {
                return Some(i);
            }
            i = i + 1;
        }
        None
    }

    /// Store `v` as the whole relation for `k`, returning whether `k` was
    /// already present.
    pub fn insert_relations(&mut self, k: RamSym, v: Relations) -> (r: bool)
        ensures
            final(self)@ == old(self)@.insert(k.key(), v@),
            r == old(self)@.dom().contains(k.key()),
    {
        proof {
            use_type_invariant(&*self);
        }
        let found = self.find(&k);
        let ghost s0 = self.rels@;
        let mut rels: Vec<(RamSym, Relations)> = Vec::new();
        std::mem::swap(&mut rels, &mut self.rels);
        match found {
            Some(i) => {
                proof {
                    lemma_db_view_found(s0, i as int, k.key());
                    lemma_db_view_update(s0, i as int, k, v);
                }
                rels[i] = (k, v);
                self.rels = rels;
                true
            },
            None => {
                proof {
                    lemma_db_view_absent(s0, k.key());
                    lemma_db_view_push(s0, k, v);
                }
                rels.push((k, v));
                self.rels = rels;
                false
            },
        }
    }

    /// The relation stored for `k`, or `d` when `k` is absent.
    pub fn get_relations_or_default<'a>(&'a self, k: &RamSym, d: &'a Relations) -> (r:
        &'a Relations)
        ensures
            r@ == if self@.dom().contains(k.key()) {
                self@[k.key()]
            } else {
                d@
            },
    {
        proof {
            use_type_invariant(&*self);
        }
        match self.find(k) {
            Some(i) => {
                proof {
                    lemma_db_view_found(self.rels@, i as int, k.key());
                }
                &self.rels[i].1
            },
            None => {
                proof {
                    lemma_db_view_absent(self.rels@, k.key());
                }
                d
            },
        }
    }

    /// Make sure a relation is stored for `k`, installing an empty one when
    /// `k` is absent.
    pub fn get_relations_or_insert(&mut self, k: RamSym)
        ensures
            final(self)@ == if old(self)@.dom().contains(k.key()) {
                old(self)@
            } else {
                old(self)@.insert(k.key(), RowsV::empty())
            },
    {
        proof {
            use_type_invariant(&*self);
        }
        let found = self.find(&k);
        let ghost s0 = self.rels@;
        match found {
            Some(i) => {
                proof {
                    lemma_db_view_found(s0, i as int, k.key());
                }
            },
            None => {
                proof {
                    lemma_db_view_absent(s0, k.key());
                }
                let mut rels: Vec<(RamSym, Relations)> = Vec::new();
                std::mem::swap(&mut rels, &mut self.rels);
                rels.push((k, Relations::new()));
                proof {
                    lemma_db_view_push(s0, rels@.last().0, rels@.last().1);
                }
                self.rels = rels;
            },
        }
    }

    /// Remove the relation stored for `k`, returning whether one was there.
    /// A removed relation behaves as empty for all subsequent reads.
    pub fn remove(&mut self, k: &RamSym) -> (r: bool)
        ensures
            final(self)@ == old(self)@.remove(k.key()),
            r == old(self)@.dom().contains(k.key()),
    {
        proof {
            use_type_invariant(&*self);
        }
        let found = self.find(k);
        let ghost s0 = self.rels@;
        match found {
            Some(i) => {
                proof {
                    lemma_db_view_found(s0, i as int, k.key());
                    lemma_db_view_remove(s0, i as int, k.key());
                }
                let mut rels: Vec<(RamSym, Relations)> = Vec::new();
                std::mem::swap(&mut rels, &mut self.rels);
                rels.remove(i);
                self.rels = rels;
                true
            },
            None => {
                proof {
                    lemma_db_view_absent(s0, k.key());
                    assert(self@.remove(k.key()) =~= self@);
                }
                false
            },
        }
    }

    /// True when the relation for `k` is absent or holds no rows.
    pub fn rel_is_empty(&self, k: &RamSym) -> (r: bool)
        ensures
            r == (db_rows_or_empty(self@, k.key()).len() == 0),
    {
        proof {
            use_type_invariant(&*self);
        }
        match self.find(k) {
            Some(i) => {
                proof {
                    lemma_db_view_found(self.rels@, i as int, k.key());
                }
                self.rels[i].1.is_empty()
            },
            None => {
                proof {
                    lemma_db_view_absent(self.rels@, k.key());
                }
                true
            },
        }
    }

    /// The value stored for tuple `key` in the relation for `k`, if any; an
    /// absent relation holds nothing.
    pub fn rel_get(&self, k: &RamSym, key: &Vec<Value>) -> (r: Option<&Value>)
        ensures
            match r {
                Some(v) => rows_lookup(db_rows_or_empty(self@, k.key()), key.deep_view()) == Some(
                    v@,
                ),
                None => rows_lookup(db_rows_or_empty(self@, k.key()), key.deep_view()) is None,
            },
    {
        proof {
            use_type_invariant(&*self);
        }
        match self.find(k) {
            Some(i) => {
                proof {
                    lemma_db_view_found(self.rels@, i as int, k.key());
                }
                self.rels[i].1.get(key)
            },
            None => {
                proof {
                    lemma_db_view_absent(self.rels@, k.key());
                }
                None
            },
        }
    }

    /// Store `val` under tuple `key` in the relation for `k`, creating the
    /// relation when absent.
    pub fn rel_store(&mut self, k: &RamSym, key: Vec<Value>, val: Value)
        ensures
            final(self)@ == old(self)@.insert(
                k.key(),
                rows_store(db_rows_or_empty(old(self)@, k.key()), key.deep_view(), val@),
            ),
    {
        proof {
            use_type_invariant(&*self);
        }
        let found = self.find(k);
        let ghost s0 = self.rels@;
        match found {
            Some(i) => {
                proof {
                    lemma_db_view_found(s0, i as int, k.key());
                }
                let mut rels: Vec<(RamSym, Relations)> = Vec::new();
                std::mem::swap(&mut rels, &mut self.rels);
                let mut entry = rels.remove(i);
                entry.1.store(key, val);
                rels.insert(i, entry);
                proof {
                    assert(rels@ =~= s0.update(i as int, rels@[i as int]));
                    lemma_db_view_update(s0, i as int, rels@[i as int].0, rels@[i as int].1);
                }
                self.rels = rels;
            },
            None => {
                proof {
                    lemma_db_view_absent(s0, k.key());
                }
                let mut rel = Relations::new();
                rel.store(key, val);
                let mut rels: Vec<(RamSym, Relations)> = Vec::new();
                std::mem::swap(&mut rels, &mut self.rels);
                rels.push((k.clone(), rel));
                proof {
                    lemma_db_view_push(s0, rels@.last().0, rels@.last().1);
                }
                self.rels = rels;
            },
        }
    }

    /// A copy of the rows of the relation for `k`; empty when absent.
    pub fn rel_clone_rows(&self, k: &RamSym) -> (r: Relations)
        ensures
            r@ == db_rows_or_empty(self@, k.key()),
    {
        proof {
            use_type_invariant(&*self);
        }
        match self.find(k) {
            Some(i) => {
                proof {
                    lemma_db_view_found(self.rels@, i as int, k.key());
                }
                self.rels[i].1.clone()
            },
            None => {
                proof {
                    lemma_db_view_absent(self.rels@, k.key());
                }
                Relations::new()
            },
        }
    }

    /// Apply a read-only computation to the relation for `k`, first
    /// installing an empty relation when `k` is absent.
    pub fn eval_inplace<A, F: Fn(&Relations) -> A>(&mut self, k: RamSym, f: F) -> (r: A)
        requires
            forall|rel: &Relations| #[trigger] call_requires(f, (rel,)),
        ensures
            final(self)@ == if old(self)@.dom().contains(k.key()) {
                old(self)@
            } else {
                old(self)@.insert(k.key(), RowsV::empty())
            },
            exists|rel: &Relations|
                rel@ == db_rows_or_empty(old(self)@, k.key()) && #[trigger] call_ensures(
                    f,
                    (rel,),
                    r,
                ),
    {
        proof {
            use_type_invariant(&*self);
        }
        let ghost db0 = self@;
        let found = self.find(&k);
        let ghost s0 = self.rels@;
        let idx: usize = match found {
            Some(i) => {
                proof {
                    lemma_db_view_found(s0, i as int, k.key());
                }
                i
            },
            None => {
                proof {
                    lemma_db_view_absent(s0, k.key());
                }
                let mut rels: Vec<(RamSym, Relations)> = Vec::new();
                std::mem::swap(&mut rels, &mut self.rels);
                rels.push((k, Relations::new()));
                proof {
                    lemma_db_view_push(s0, rels@.last().0, rels@.last().1);
                }
                let n = rels.len() - 1;
                self.rels = rels;
                n
            },
        };
        let rel_ref = &self.rels[idx].1;
        proof {
            use_type_invariant(&*self);
            lemma_db_view_found(self.rels@, idx as int, self.rels@[idx as int].0.key());
            assert(rel_ref@ == db_rows_or_empty(db0, k.key()));
        }
        f(rel_ref)
    }

    /// Apply a relation-transforming computation to the relation for `k`,
    /// first installing an empty relation when `k` is absent; the returned
    /// relation replaces the stored one.
    pub fn eval_inplace_or_insert_mut<A, F: FnOnce(Relations) -> (Relations, A)>(
        &mut self,
        k: RamSym,
        f: F,
    ) -> (r: A)
        requires
            forall|rel: Relations| #[trigger] call_requires(f, (rel,)),
        ensures
            exists|arg: Relations, out: (Relations, A)|
                {
                    &&& arg@ == db_rows_or_empty(old(self)@, k.key())
                    &&& #[trigger] call_ensures(f, (arg,), out)
                    &&& out.1 == r
                    &&& final(self)@ == old(self)@.insert(k.key(), out.0@)
                },
    {
        proof {
            use_type_invariant(&*self);
        }
        let ghost db0 = self@;
        let found = self.find(&k);
        let ghost s0 = self.rels@;
        match found {
            Some(i) => {
                proof {
                    lemma_db_view_found(s0, i as int, k.key());
                }
                let mut rels: Vec<(RamSym, Relations)> = Vec::new();
                std::mem::swap(&mut rels, &mut self.rels);
                let entry = rels.remove(i);
                let ghost arg = entry.1;
                let (rel2, a) = f(entry.1);
                rels.insert(i, (entry.0, rel2));
                proof {
                    assert(rels@ =~= s0.update(i as int, rels@[i as int]));
                    lemma_db_view_update(s0, i as int, rels@[i as int].0, rels@[i as int].1);
                }
                self.rels = rels;
                a
            },
            None => {
                proof {
                    lemma_db_view_absent(s0, k.key());
                }
                let (rel2, a) = f(Relations::new());
                let mut rels: Vec<(RamSym, Relations)> = Vec::new();
                std::mem::swap(&mut rels, &mut self.rels);
                rels.push((k, rel2));
                proof {
                    lemma_db_view_push(s0, rels@.last().0, rels@.last().1);
                }
                self.rels = rels;
                a
            },
        }
    }

    /// Fold another database into this one, entry by entry; a relation
    /// present in both is replaced by the other database's one.
    pub fn extend(&mut self, db: Database)
        ensures
            final(self)@ == old(self)@.union_prefer_right(db@),
    {
        proof {
            use_type_invariant(&db);
        }
        let ghost other = db.rels@;
        let mut i: usize = 0;
        proof {
            assert(old(self)@.union_prefer_right(db_view_of(other.take(0))) =~= old(self)@);
        }
        while i < db.rels.len()
            invariant
                0 <= i <= db.rels@.len(),
                db.rels@ == other,
                self@ == old(self)@.union_prefer_right(db_view_of(other.take(i as int))),
            decreases db.rels@.len() - i,
        {
            let entry = &db.rels[i];
            self.insert_relations(entry.0.clone(), entry.1.clone());
            proof {
                assert(other.take(i as int + 1).drop_last() =~= other.take(i as int));
                assert(db_view_of(other.take(i as int + 1)) == db_view_of(
                    other.take(i as int),
                ).insert(other[i as int].0.key(), other[i as int].1@));
                assert(self@ =~= old(self)@.union_prefer_right(db_view_of(other.take(i as int + 1))));
            }
            i = i + 1;
        }
        proof {
            assert(other.take(other.len() as int) =~= other);
        }
    }
}

} // verus!
