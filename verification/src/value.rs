//! The value tree and its mathematical model.

use vstd::prelude::*;

verus! {

/// A decimal fraction literal, kept as written: a sign, the integer part and
/// the digits after the point.
#[derive(Debug, PartialEq, Eq)]
pub struct Decimal {
    pub negative: bool,
    pub whole: u64,
    pub digits: Vec<u8>,
}

/// Model of a [`Decimal`].
pub struct DecimalView {
    pub negative: bool,
    pub whole: u64,
    pub digits: Seq<u8>,
}

impl View for Decimal {
    type V = DecimalView;

    open spec fn view(&self) -> DecimalView {
        DecimalView { negative: self.negative, whole: self.whole, digits: self.digits@ }
    }
}

impl Clone for Decimal {
    fn clone(&self) -> (r: Self)
        ensures
            r@ == self@,
    {
        let mut digits: Vec<u8> = Vec::new();
        let mut i: usize = 0;
        while i < self.digits.len()
            invariant
                i <= self.digits.len(),
                digits@ == self.digits@.subrange(0, i as int),
            decreases self.digits.len() - i,
        {
            digits.push(self.digits[i]);
            i = i + 1;
        }
        assert(digits@ =~= self.digits@);
        Decimal { negative: self.negative, whole: self.whole, digits }
    }
}

impl DecimalView {
    /// At least one digit follows the point, and each digit is below ten.
    pub open spec fn wf(self) -> bool {
        &&& self.digits.len() > 0
        &&& forall|i: int| 0 <= i < self.digits.len() ==> #[trigger] self.digits[i] < 10
    }
}

/// A node of the value tree.
#[derive(Debug, PartialEq)]
pub enum Value {
    NoValue,
    Boolean(bool),
    PosInt(u64),
    NegInt(u64),
    Float(Decimal),
    String(String),
    Datetime(u16, u8, u8, u8, u8, u8),
    Array(Vec<Value>),
    TableArray(Vec<Value>),
    /// The flag tells whether a section header opened this table.
    Table(bool, Vec<(String, Value)>),
}

/// Model of a [`Value`]: the same tree over sequences.
#[verifier::ext_equal]
pub enum Tree {
    Absent,
    Bool(bool),
    PosInt(u64),
    NegInt(u64),
    Float(DecimalView),
    String(Seq<char>),
    Datetime(u16, u8, u8, u8, u8, u8),
    Array(Seq<Tree>),
    TableArray(Seq<Tree>),
    Table(bool, Seq<(Seq<char>, Tree)>),
}

/// The model of a value: each vector becomes the sequence of its elements'
/// models, each string the sequence of its characters.
pub open spec fn tree_of(v: Value) -> Tree
    decreases v,
{
    match v {
        Value::NoValue => Tree::Absent,
        Value::Boolean(b) => Tree::Bool(b),
        Value::PosInt(n) => Tree::PosInt(n),
        Value::NegInt(n) => Tree::NegInt(n),
        Value::Float(d) => Tree::Float(d@),
        Value::String(s) => Tree::String(s@),
        Value::Datetime(y, mo, d, h, mi, s) => Tree::Datetime(y, mo, d, h, mi, s),
        Value::Array(a) => Tree::Array(
            Seq::new(
                a@.len(),
                |i: int|
                    if 0 <= i < a@.len() {
                        tree_of(a@[i])
                    } else {
                        Tree::Absent
                    },
            ),
        ),
        Value::TableArray(a) => Tree::TableArray(
            Seq::new(
                a@.len(),
                |i: int|
                    if 0 <= i < a@.len() {
                        tree_of(a@[i])
                    } else {
                        Tree::Absent
                    },
            ),
        ),
        Value::Table(opened, t) => Tree::Table(
            opened,
            Seq::new(
                t@.len(),
                |i: int|
                    if 0 <= i < t@.len() {
                        (t@[i].0@, tree_of(t@[i].1))
                    } else {
                        (Seq::empty(), Tree::Absent)
                    },
            ),
        ),
    }
}

impl View for Value {
    type V = Tree;

    open spec fn view(&self) -> Tree {
        tree_of(*self)
    }
}

/// The models of a sequence of values, in order.
pub open spec fn trees(a: Seq<Value>) -> Seq<Tree> {
    Seq::new(a.len(), |i: int| a[i]@)
}

/// The models of a table's entries, in stored order.
pub open spec fn entries(t: Seq<(String, Value)>) -> Seq<(Seq<char>, Tree)> {
    Seq::new(t.len(), |i: int| (t[i].0@, t[i].1@))
}

/// The view of an array is the sequence of its elements' views.
pub proof fn lemma_view_array(a: Vec<Value>)
    ensures
        Value::Array(a)@ == Tree::Array(trees(a@)),
        Value::TableArray(a)@ == Tree::TableArray(trees(a@)),
{
    assert(Value::Array(a)@->Array_0 =~= trees(a@));
    assert(Value::TableArray(a)@->TableArray_0 =~= trees(a@));
}

/// The view of a table is its flag and the sequence of its entries' views.
pub proof fn lemma_view_table(opened: bool, t: Vec<(String, Value)>)
    ensures
        Value::Table(opened, t)@ == Tree::Table(opened, entries(t@)),
{
    assert(Value::Table(opened, t)@->Table_1 =~= entries(t@));
}

/// Index of the first entry stored under `key`, if there is one.
pub open spec fn find(t: Seq<(Seq<char>, Tree)>, key: Seq<char>) -> Option<int>
    decreases t.len(),
{
    if t.len() == 0 {
        None
    } else if t[0].0 == key {
        Some(0int)
    } else {
        match find(t.drop_first(), key) {
            Some(i) => Some(i + 1),
            None => None,
        }
    }
}

impl Clone for Value {
    fn clone(&self) -> (r: Self)
        ensures
            r@ == self@,
    {
        self.copy()
    }
}

impl Tree {
    /// Two values may stand in one array: both booleans, both integers of
    /// either sign, both floats, both strings, both datetimes or both arrays.
    pub open spec fn equiv(self, other: Tree) -> bool {
        ||| self is Bool && other is Bool
        ||| (self is PosInt || self is NegInt) && (other is PosInt || other is NegInt)
        ||| self is Float && other is Float
        ||| self is String && other is String
        ||| self is Datetime && other is Datetime
        ||| self is Array && other is Array
    }

    /// The number that an integer node stands for: its magnitude, negated
    /// where the node is negative.
    pub open spec fn number(self) -> int {
        match self {
            Tree::PosInt(n) => n as int,
            Tree::NegInt(n) => -(n as int),
            _ => 0,
        }
    }

    /// The signed value of an integer node, where it lies in the range of
    /// `i64`: from `i64::MIN` to `i64::MAX`, both included.
    pub open spec fn as_int(self) -> Option<i64> {
        if (self is PosInt || self is NegInt) && i64::MIN <= self.number() <= i64::MAX {
            Some(self.number() as i64)
        } else {
            None
        }
    }
}

/// Whether `v1` and `v2` may be elements of one array.
pub fn have_equiv_types(v1: &Value, v2: &Value) -> (r: bool)
    ensures
        r == v1@.equiv(v2@),
{
    match (v1, v2) {
        (Value::Boolean(_), Value::Boolean(_)) => true,
        (Value::PosInt(_), Value::PosInt(_)) => true,
        (Value::PosInt(_), Value::NegInt(_)) => true,
        (Value::NegInt(_), Value::PosInt(_)) => true,
        (Value::NegInt(_), Value::NegInt(_)) => true,
        (Value::Float(_), Value::Float(_)) => true,
        (Value::String(_), Value::String(_)) => true,
        (Value::Datetime(..), Value::Datetime(..)) => true,
        (Value::Array(_), Value::Array(_)) => true,
        _ => false,
    }
}

impl Value {
    /// A copy of the whole tree below this value.
    #[verifier::loop_isolation(false)]
    pub fn copy(&self) -> (r: Value)
        ensures
            r@ == self@,
        decreases self,
    {
        match self {
            Value::NoValue => Value::NoValue,
            Value::Boolean(b) => Value::Boolean(*b),
            Value::PosInt(n) => Value::PosInt(*n),
            Value::NegInt(n) => Value::NegInt(*n),
            Value::Float(d) => Value::Float(d.clone()),
            Value::String(s) => Value::String(s.clone()),
            Value::Datetime(y, mo, d, h, mi, s) => Value::Datetime(*y, *mo, *d, *h, *mi, *s),
            Value::Array(a) => {
                let mut out: Vec<Value> = Vec::new();
                let mut i: usize = 0;
                while i < a.len()
                    invariant
                        i <= a.len(),
                        trees(out@) == trees(a@).subrange(0, i as int),
                    decreases a.len() - i,
                {
                    out.push(a[i].copy());
                    i = i + 1;
                    assert(trees(out@) =~= trees(a@).subrange(0, i as int));
                }
                proof {
                    lemma_view_array(*a);
                    lemma_view_array(out);
                    assert(trees(out@) =~= trees(a@));
                }
                Value::Array(out)
            },
            Value::TableArray(a) => {
                let mut out: Vec<Value> = Vec::new();
                let mut i: usize = 0;
                while i < a.len()
                    invariant
                        i <= a.len(),
                        trees(out@) == trees(a@).subrange(0, i as int),
                    decreases a.len() - i,
                {
                    out.push(a[i].copy());
                    i = i + 1;
                    assert(trees(out@) =~= trees(a@).subrange(0, i as int));
                }
                proof {
                    lemma_view_array(*a);
                    lemma_view_array(out);
                    assert(trees(out@) =~= trees(a@));
                }
                Value::TableArray(out)
            },
            Value::Table(opened, t) => {
                let mut out: Vec<(String, Value)> = Vec::new();
                let mut i: usize = 0;
                while i < t.len()
                    invariant
                        i <= t.len(),
                        entries(out@) == entries(t@).subrange(0, i as int),
                    decreases t.len() - i,
                {
                    out.push((t[i].0.clone(), t[i].1.copy()));
                    i = i + 1;
                    assert(entries(out@) =~= entries(t@).subrange(0, i as int));
                }
                proof {
                    lemma_view_table(*opened, *t);
                    lemma_view_table(*opened, out);
                    assert(entries(out@) =~= entries(t@));
                }
                Value::Table(*opened, out)
            },
        }
    }

    pub fn get_bool(&self) -> (r: Option<bool>)
        ensures
            r == (match self@ {
                Tree::Bool(b) => Some(b),
                _ => None,
            }),
    {
        match self {
            Value::Boolean(b) => Some(*b),
            _ => None,
        }
    }

    /// The signed value of an integer that lies in the range of `i64`.
    pub fn get_int(&self) -> (r: Option<i64>)
        ensures
            r == self@.as_int(),
    {
        match self {
            Value::PosInt(u) => if *u <= 0x7fff_ffff_ffff_ffff {
                Some(*u as i64)
            } else {
                None
            },
            Value::NegInt(u) => if *u <= 0x7fff_ffff_ffff_ffff {
                Some(-(*u as i64))
            } else if *u == 0x8000_0000_0000_0000 {
                Some(-0x7fff_ffff_ffff_ffff - 1)
            } else {
                None
            },
            _ => None,
        }
    }

    pub fn get_float(&self) -> (r: Option<&Decimal>)
        ensures
            match self@ {
                Tree::Float(d) => r is Some && r.unwrap()@ == d,
                _ => r is None,
            },
    {
        match self {
            Value::Float(d) => Some(d),
            _ => None,
        }
    }

    pub fn get_str(&self) -> (r: Option<&String>)
        ensures
            match self@ {
                Tree::String(s) => r is Some && r.unwrap()@ == s,
                _ => r is None,
            },
    {
        match self {
            Value::String(s) => Some(s),
            _ => None,
        }
    }

    pub fn get_vec(&self) -> (r: Option<&Vec<Value>>)
        ensures
            match self@ {
                Tree::Array(a) => r is Some && trees(r.unwrap()@) == a,
                _ => r is None,
            },
    {
        match self {
            Value::Array(a) => {
                proof {
                    lemma_view_array(*a);
                }
                Some(a)
            },
            _ => None,
        }
    }

    pub fn get_table(&self) -> (r: Option<&Vec<(String, Value)>>)
        ensures
            match self@ {
                Tree::Table(_, t) => r is Some && entries(r.unwrap()@) == t,
                _ => r is None,
            },
    {
        match self {
            Value::Table(opened, t) => {
                proof {
                    lemma_view_table(*opened, *t);
                }
                Some(t)
            },
            _ => None,
        }
    }

    pub fn get_table_array(&self) -> (r: Option<&Vec<Value>>)
        ensures
            match self@ {
                Tree::TableArray(a) => r is Some && trees(r.unwrap()@) == a,
                _ => r is None,
            },
    {
        match self {
            Value::TableArray(a) => {
                proof {
                    lemma_view_array(*a);
                }
                Some(a)
            },
            _ => None,
        }
    }
}

} // verus!
