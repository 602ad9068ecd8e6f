//! The invariants of a value tree.

use vstd::prelude::*;
use crate::builder::Entries;
use crate::grammar::datetime_in_range;
use crate::value::Tree;

verus! {

impl Tree {
    /// A value that a literal can write: a boolean, an integer, a float, a
    /// string, a datetime or an array.
    pub open spec fn is_literal(self) -> bool {
        self.equiv(self)
    }

    /// The invariants of the tree below this value: the keys of a table are
    /// distinct and none of its values is `Absent`; the elements of an array
    /// are literals of the kind of the first; a table array is not empty and
    /// holds tables alone; the fields of a datetime are in range, and a float
    /// has digits after its point.
    pub open spec fn wf(self) -> bool
        decreases self,
    {
        match self {
            Tree::Float(d) => d.wf(),
            Tree::Datetime(_, month, day, hour, minute, second) => datetime_in_range(
                month,
                day,
                hour,
                minute,
                second,
            ),
            Tree::Array(a) => forall|i: int|
                0 <= i < a.len() ==> a[0].equiv(#[trigger] a[i]) && a[i].wf(),
            Tree::TableArray(a) => a.len() > 0 && forall|i: int|
                0 <= i < a.len() ==> (#[trigger] a[i]) is Table && a[i].wf(),
            Tree::Table(_, t) => {
                &&& forall|i: int, j: int| 0 <= i < j < t.len() ==> (#[trigger] t[i]).0 != (#[trigger] t[j]).0
                &&& forall|i: int| 0 <= i < t.len() ==> !((#[trigger] t[i]).1 is Absent) && t[i].1.wf()
            },
            _ => true,
        }
    }
}

/// The invariants of the entries of a table.
pub open spec fn entries_wf(t: Entries) -> bool {
    Tree::Table(false, t).wf()
}

} // verus!
