use vstd::prelude::*;

verus! {

/// The mathematical image of a [`Value`]: string payloads become character
/// sequences, so that equality of images is structural.
pub enum ValueV {
    Bool(bool),
    Int32(i32),
    Str(Seq<char>),
}

/// A constant of the object language: a closed tagged union over booleans,
/// 32-bit integers and strings.  `Bool(false)` doubles as the relational
/// "mark" stored for tuples that carry no lattice payload.
#[derive(Debug)]
pub enum Value {
    Bool(bool),
    Int32(i32),
    Str(String),
}

impl View for Value {
    type V = ValueV;

    open spec fn view(&self) -> ValueV {
        match self {
            Value::Bool(b) => ValueV::Bool(*b),
            Value::Int32(i) => ValueV::Int32(*i),
            Value::Str(s) => ValueV::Str(s@),
        }
    }
}

impl DeepView for Value {
    type V = ValueV;

    open spec fn deep_view(&self) -> ValueV {
        self@
    }
}

impl Value {
    /// Structural equality of two values.
    pub fn eq_value(&self, other: &Value) -> (r: bool)
        ensures
            r == (self@ == other@),
    {
        match (self, other) {
            (Value::Bool(a), Value::Bool(b)) => *a == *b,
            (Value::Int32(a), Value::Int32(b)) => *a == *b,
            (Value::Str(a), Value::Str(b)) => *a == *b,
            _ => false,
        }
    }
}

impl Clone for Value {
    fn clone(&self) -> (r: Self)
        ensures
            r == *self,
    {
        match self {
            Value::Bool(b) => Value::Bool(*b),
            Value::Int32(i) => Value::Int32(*i),
            Value::Str(s) => Value::Str(s.clone()),
        }
    }
}

impl Default for Value {
    /// The default value, stored as the mark for relational tuples.
    fn default() -> (r: Self)
        ensures
            r == Value::Bool(false),
    {
        Value::Bool(false)
    }
}

/// The identity of a predicate: a name paired with a disambiguating id, so
/// that the same logical name can occur in separately generated program
/// fragments without collision.
#[derive(Debug)]
pub struct PredSym {
    pub name: String,
    pub id: i64,
}

/// The mathematical image of a [`PredSym`].
pub struct PredSymV {
    pub name: Seq<char>,
    pub id: int,
}

impl View for PredSym {
    type V = PredSymV;

    open spec fn view(&self) -> PredSymV {
        PredSymV { name: self.name@, id: self.id as int }
    }
}

impl DeepView for PredSym {
    type V = PredSymV;

    open spec fn deep_view(&self) -> PredSymV {
        self@
    }
}

impl Clone for PredSym {
    fn clone(&self) -> (r: Self)
        ensures
            r == *self,
    {
        PredSym { name: self.name.clone(), id: self.id }
    }
}

impl PredSym {
    /// Identity of predicate symbols: equal name and equal id.
    pub fn eq_sym(&self, other: &PredSym) -> (r: bool)
        ensures
            r == (self@ == other@),
    {
        self.name == other.name && self.id == other.id
    }
}

/// How a relation's tuples are interpreted.  `Relational` relations hold
/// plain tuples (presence is truth); `Latticenal` relations pair a key
/// prefix with a lattice value.  A latticenal denotation carries the
/// lattice's bottom element together with the identifiers of the
/// caller-supplied `leq`, `lub` and `glb` operations, resolved through the
/// `Callables` capability the interpreter is given.
#[derive(Debug)]
pub enum Denotation {
    Relational,
    Latticenal(Value, usize, usize, usize),
}

/// The mathematical image of a [`Denotation`].
pub enum DenotationV {
    Relational,
    Latticenal(ValueV, int, int, int),
}

impl View for Denotation {
    type V = DenotationV;

    open spec fn view(&self) -> DenotationV {
        match self {
            Denotation::Relational => DenotationV::Relational,
            Denotation::Latticenal(bot, leq, lub, glb) => DenotationV::Latticenal(
                bot@,
                *leq as int,
                *lub as int,
                *glb as int,
            ),
        }
    }
}

impl Clone for Denotation {
    fn clone(&self) -> (r: Self)
        ensures
            r == *self,
    {
        match self {
            Denotation::Relational => Denotation::Relational,
            Denotation::Latticenal(bot, leq, lub, glb) => Denotation::Latticenal(
                bot.clone(),
                *leq,
                *lub,
                *glb,
            ),
        }
    }
}

impl Denotation {
    /// True exactly when the denotation is `Relational`.
    pub fn is_relational(&self) -> (r: bool)
        ensures
            r == (*self is Relational),
    {
        match self {
            Denotation::Relational => true,
            _ => false,
        }
    }
}

} // verus!
