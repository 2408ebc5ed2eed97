use vstd::prelude::*;

use crate::database::clone_row;
use crate::shared::{Value, ValueV};

verus! {

/// The capability through which the engine reaches every caller-supplied
/// function: guard predicates, head-term transformers, tuple generators,
/// and a lattice's `leq`, `lub` and `glb`.  Each function is named by an
/// identifier fixed when the host builds the program.
///
/// The spec functions give each identifier's mathematical meaning, and the
/// exec methods must return exactly that value: an implementation is
/// thereby total, deterministic and free of observable side effects, which
/// is the contract the engine's own guarantees rest on.
pub trait Callables {
    /// The meaning of boolean function `f` on `args`.
    spec fn bool_fn(&self, f: int, args: Seq<ValueV>) -> bool;

    /// The meaning of value function `f` on `args`.
    spec fn value_fn(&self, f: int, args: Seq<ValueV>) -> ValueV;

    /// The meaning of tuple-generating function `f` on `args`.
    spec fn rows_fn(&self, f: int, args: Seq<ValueV>) -> Seq<Seq<ValueV>>;

    /// Apply boolean function `f`: a guard or a lattice `leq`.
    fn call_bool(&self, f: usize, args: &Vec<Value>) -> (r: bool)
        ensures
            r == self.bool_fn(f as int, args.deep_view()),
    ;

    /// Apply value function `f`: a head transformer, a `lub` or a `glb`.
    fn call_value(&self, f: usize, args: &Vec<Value>) -> (r: Value)
        ensures
            r@ == self.value_fn(f as int, args.deep_view()),
    ;

    /// Apply tuple-generating function `f`.
    fn call_rows(&self, f: usize, args: &Vec<Value>) -> (r: Vec<Vec<Value>>)
        ensures
            r.deep_view() == self.rows_fn(f as int, args.deep_view()),
    ;
}

/// A small stock of callables over `Int32` values: boolean function 0 is
/// the numeric `<=` and boolean function 1 its reverse (the order of the
/// minimum lattice, whose bottom is the largest cost); value function 0 is
/// the minimum and value function 1 the maximum, serving as that lattice's
/// `lub` and `glb`; every tuple generator yields its argument tuple once.
/// All other identifiers and argument shapes yield `false` or the default
/// value.
pub struct IntOps;

impl Callables for IntOps {
    open spec fn bool_fn(&self, f: int, args: Seq<ValueV>) -> bool {
        if (f == 0 || f == 1) && args.len() == 2 {
            match (args[0], args[1]) {
                (ValueV::Int32(a), ValueV::Int32(b)) => if f == 0 {
                    a <= b
                } else {
                    b <= a
                },
                _ => false,
            }
        } else {
            false
        }
    }

    open spec fn value_fn(&self, f: int, args: Seq<ValueV>) -> ValueV {
        if (f == 0 || f == 1) && args.len() == 2 {
            match (args[0], args[1]) {
                (ValueV::Int32(a), ValueV::Int32(b)) => if (f == 0) == (a <= b) {
                    ValueV::Int32(a)
                } else {
                    ValueV::Int32(b)
                },
                _ => ValueV::Bool(false),
            }
        } else {
            ValueV::Bool(false)
        }
    }

    open spec fn rows_fn(&self, f: int, args: Seq<ValueV>) -> Seq<Seq<ValueV>> {
        seq![args]
    }

    fn call_bool(&self, f: usize, args: &Vec<Value>) -> (r: bool) {
        if (f == 0 || f == 1) && args.len() == 2 {
            match (&args[0], &args[1]) {
                (Value::Int32(a), Value::Int32(b)) => {
                    if f == 0 {
                        *a <= *b
                    } else {
                        *b <= *a
                    }
                },
                _ => false,
            }
        } else {
            false
        }
    }

    fn call_value(&self, f: usize, args: &Vec<Value>) -> (r: Value) {
        if (f == 0 || f == 1) && args.len() == 2 {
            match (&args[0], &args[1]) {
                (Value::Int32(a), Value::Int32(b)) => {
                    let keep_first = if f == 0 {
                        *a <= *b
                    } else {
                        !(*a <= *b)
                    };
                    if keep_first {
                        Value::Int32(*a)
                    } else {
                        Value::Int32(*b)
                    }
                },
                _ => Value::Bool(false),
            }
        } else {
            Value::Bool(false)
        }
    }

    fn call_rows(&self, f: usize, args: &Vec<Value>) -> (r: Vec<Vec<Value>>) {
        let mut out: Vec<Vec<Value>> = Vec::new();
        out.push(clone_row(args));
        proof {
            assert(out.deep_view() =~~= self.rows_fn(f as int, args.deep_view()));
        }
        out
    }
}

} // verus!
