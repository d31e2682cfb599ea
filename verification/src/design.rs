//! Items of an elaborated design: parameters, resets, parameter bindings,
//! connections, symbolic constants, and the summary of a driver check.
use crate::expr::{EirExpr, same_expr};
use crate::text::str_eq;
use vstd::prelude::*;

verus! {

/// A module parameter: its name, its default value as written, and its
/// documentation if it has any.
#[derive(Debug)]
pub struct EirParam {
    pub doc: Option<String>,
    pub name: String,
    pub default: String,
}

/// The text of optional documentation.
pub open spec fn doc_text(doc: Option<String>) -> Option<Seq<char>> {
    match doc {
        Some(d) => Some(d@),
        None => None,
    }
}

impl EirParam {
    /// A parameter with no documentation.
    pub fn new(name: &str, default: &str) -> (r: Self)
        ensures
            r.name@ == name@,
            r.default@ == default@,
            r.doc is None,
    {
        EirParam { doc: None, name: name.to_owned(), default: default.to_owned() }
    }

    /// The parameter with its documentation replaced.
    pub fn with_doc(self, doc: Option<String>) -> (r: Self)
        ensures
            r.doc == doc,
            r.name == self.name,
            r.default == self.default,
    {
        let mut this = self;
        this.doc = doc;
        this
    }

    /// The documentation, if any.
    pub fn doc(&self) -> (r: Option<&str>)
        ensures
            match r {
                Some(d) => doc_text(self.doc) == Some(d@),
                None => self.doc is None,
            },
    {
        match &self.doc {
            Some(d) => Some(d.as_str()),
            None => None,
        }
    }

    /// The name.
    pub fn name(&self) -> (r: &str)
        ensures
            r@ == self.name@,
    {
        self.name.as_str()
    }

    /// The default value as written.
    pub fn default(&self) -> (r: &str)
        ensures
            r@ == self.default@,
    {
        self.default.as_str()
    }
}

/// A reset: the condition under which it applies and the value it gives.
#[derive(Debug)]
pub struct EirReset {
    pub condition: EirExpr,
    pub value: EirExpr,
}

impl EirReset {
    /// A reset to `value` under `condition`.
    pub fn new(condition: EirExpr, value: EirExpr) -> (r: Self)
        ensures
            r.condition == condition,
            r.value == value,
    {
        EirReset { condition, value }
    }

    /// The condition.
    pub fn condition(&self) -> (r: &EirExpr)
        ensures
            *r == self.condition,
    {
        &self.condition
    }

    /// The value.
    pub fn value(&self) -> (r: &EirExpr)
        ensures
            *r == self.value,
    {
        &self.value
    }
}

/// A parameter given a value at an instance.
#[derive(Debug)]
pub struct EirParamBind {
    pub name: String,
    pub value: String,
}

impl EirParamBind {
    /// Binds `name` to `value`.
    pub fn new(name: &str, value: &str) -> (r: Self)
        ensures
            r.name@ == name@,
            r.value@ == value@,
    {
        EirParamBind { name: name.to_owned(), value: value.to_owned() }
    }

    /// The parameter's name.
    pub fn name(&self) -> (r: &str)
        ensures
            r@ == self.name@,
    {
        self.name.as_str()
    }

    /// The value given.
    pub fn value(&self) -> (r: &str)
        ensures
            r@ == self.value@,
    {
        self.value.as_str()
    }
}

/// A port of an instance connected to an expression.
#[derive(Debug)]
pub struct EirConnection {
    pub formal: String,
    pub actual: EirExpr,
}

impl EirConnection {
    /// Connects the port `formal` to `actual`.
    pub fn new(formal: &str, actual: EirExpr) -> (r: Self)
        ensures
            r.formal@ == formal@,
            r.actual == actual,
    {
        EirConnection { formal: formal.to_owned(), actual }
    }

    /// The port's name.
    pub fn formal(&self) -> (r: &str)
        ensures
            r@ == self.formal@,
    {
        self.formal.as_str()
    }

    /// The connected expression.
    pub fn actual(&self) -> (r: &EirExpr)
        ensures
            *r == self.actual,
    {
        &self.actual
    }
}

/// The value a numbering variable holds.
#[derive(Clone, Copy, Debug, PartialEq, Eq, Structural)]
pub enum NumberingValue {
    Counter(u64),
}

impl NumberingValue {
    /// The number.
    pub fn value(self) -> (r: u64)
        ensures
            r == match self {
                NumberingValue::Counter(v) => v,
            },
    {
        match self {
            NumberingValue::Counter(v) => v,
        }
    }
}

/// A constant known symbolically: an expression, or a structure of named
/// fields.
#[derive(Debug)]
pub enum SymbolicConstValue {
    Scalar(EirExpr),
    Struct(Vec<(String, SymbolicConstValue)>),
}

/// Two symbolic constants have the same shape, names and expressions.
pub open spec fn same_const(a: SymbolicConstValue, b: SymbolicConstValue) -> bool
    decreases a,
{
    match a {
        SymbolicConstValue::Scalar(e) => b matches SymbolicConstValue::Scalar(f) && same_expr(e, f),
        SymbolicConstValue::Struct(fields) => b matches SymbolicConstValue::Struct(gs) && fields.len()
            == gs.len() && forall|i: int|
            0 <= i < fields.len() ==> #[trigger] fields@[i].0@ == gs@[i].0@ && same_const(
                fields@[i].1,
                gs@[i].1,
            ),
    }
}

/// The position of the first field with the given name.
pub open spec fn first_field(fields: Seq<(String, SymbolicConstValue)>, name: Seq<char>) -> Option<
    int,
>
    decreases fields.len(),
{
    if fields.len() == 0 {
        None
    } else if fields[0].0@ == name {
        Some(0)
    } else {
        match first_field(fields.drop_first(), name) {
            Some(i) => Some(i + 1),
            None => None,
        }
    }
}

impl SymbolicConstValue {
    /// The expression of a scalar; `None` for a structure.
    pub fn into_scalar(self) -> (r: Option<EirExpr>)
        ensures
            match self {
                SymbolicConstValue::Scalar(e) => r == Some(e),
                SymbolicConstValue::Struct(_) => r is None,
            },
    {
        match self {
            SymbolicConstValue::Scalar(e) => Some(e),
            SymbolicConstValue::Struct(_) => None,
        }
    }

    /// A copy of the named field of a structure; `None` for a scalar or a
    /// name the structure lacks.
    pub fn field(&self, name: &str) -> (r: Option<Self>)
        ensures
            match *self {
                SymbolicConstValue::Scalar(_) => r is None,
                SymbolicConstValue::Struct(fields) => match first_field(fields@, name@) {
                    Some(i) => r matches Some(v) && same_const(v, fields@[i].1),
                    None => r is None,
                },
            },
    {
        match self {
            SymbolicConstValue::Scalar(_) => None,
            SymbolicConstValue::Struct(fields) => Self::field_in(fields, name),
        }
    }

    fn field_in(fields: &Vec<(String, SymbolicConstValue)>, name: &str) -> (r: Option<Self>)
        ensures
            match first_field(fields@, name@) {
                Some(i) => 0 <= i < fields.len() && (r matches Some(v) && same_const(v, fields@[i].1)),
                None => r is None,
            },
    {
        let mut i: usize = 0;
        proof {
            assert(fields@.skip(0) =~= fields@);
        }
        while i < fields.len()
            invariant
                i <= fields.len(),
                first_field(fields@, name@) == match first_field(fields@.skip(i as int), name@) {
                    Some(j) => Some(j + i),
                    None => None::<int>,
                },
            decreases fields.len() - i,
        {
            proof {
                assert(fields@.skip(i as int)[0] == fields@[i as int]);
                assert(fields@.skip(i as int).drop_first() =~= fields@.skip(i + 1));
            }
            if str_eq(fields[i].0.as_str(), name) {
                return Some(fields[i].1.copy());
            }
            i = i + 1;
        }
        proof {
            assert(fields@.skip(fields.len() as int) =~= Seq::<(String, SymbolicConstValue)>::empty());
        }
        None
    }

    /// A copy of this constant.
    pub fn copy(&self) -> (r: Self)
        ensures
            same_const(r, *self),
        decreases self, 1nat,
    {
        match self {
            SymbolicConstValue::Scalar(e) => SymbolicConstValue::Scalar(e.copy()),
            SymbolicConstValue::Struct(fields) => SymbolicConstValue::Struct(Self::copy_fields(fields)),
        }
    }

    fn copy_fields(fields: &Vec<(String, SymbolicConstValue)>) -> (r: Vec<(String, SymbolicConstValue)>)
        ensures
            r.len() == fields.len(),
            forall|j: int|
                0 <= j < fields.len() ==> #[trigger] r@[j].0@ == fields@[j].0@ && same_const(
                    r@[j].1,
                    fields@[j].1,
                ),
        decreases fields, 0nat,
    {
        let mut out: Vec<(String, SymbolicConstValue)> = Vec::new();
        let mut i: usize = 0;
        while i < fields.len()
            invariant
                i <= fields.len(),
                out.len() == i,
                forall|j: int|
                    0 <= j < i ==> #[trigger] out@[j].0@ == fields@[j].0@ && same_const(
                        out@[j].1,
                        fields@[j].1,
                    ),
            decreases fields.len() - i,
        {
            assert(decreases_to!(fields => fields@[i as int].1));
            let v = fields[i].1.copy();
            out.push((fields[i].0.clone(), v));
            i = i + 1;
        }
        out
    }
}

/// How much a driver check looked at: modules, drives, reads and created
/// objects.
#[derive(Clone, Copy, Debug, PartialEq, Eq, Structural)]
pub struct DriverDrcReport {
    pub module_count: usize,
    pub drive_count: usize,
    pub read_count: usize,
    pub create_count: usize,
}

impl DriverDrcReport {
    /// The report of a check over the given numbers of modules and facts.
    pub fn new(module_count: usize, drive_count: usize, read_count: usize, create_count: usize) -> (r:
        Self)
        ensures
            r == (DriverDrcReport { module_count, drive_count, read_count, create_count }),
    {
        DriverDrcReport { module_count, drive_count, read_count, create_count }
    }

    /// The number of modules checked.
    pub fn module_count(&self) -> (r: usize)
        ensures
            r == self.module_count,
    {
        self.module_count
    }

    /// The number of drives checked.
    pub fn drive_count(&self) -> (r: usize)
        ensures
            r == self.drive_count,
    {
        self.drive_count
    }

    /// The number of reads checked.
    pub fn read_count(&self) -> (r: usize)
        ensures
            r == self.read_count,
    {
        self.read_count
    }

    /// The number of created objects checked.
    pub fn create_count(&self) -> (r: usize)
        ensures
            r == self.create_count,
    {
        self.create_count
    }
}

} // verus!
