//! Navigation of a value tree by keys, indices and dotted paths.

use vstd::prelude::*;
use crate::builder::find_key;
use crate::grammar::{decimal, run_len};
use crate::parser::digit_of;
use crate::text::{chars_of, split_dots, split_segments, strings};
use crate::value::{find, lemma_view_array, lemma_view_table, Tree, Value};

verus! {

/// One step of a path.
#[derive(Debug, PartialEq, Eq)]
pub enum PathElement {
    /// The entry of a table with this key.
    Key(String),
    /// The element of an array or of a table array at this position.
    Idx(usize),
}

/// Model of a [`PathElement`].
pub enum Step {
    Key(Seq<char>),
    Idx(usize),
}

impl View for PathElement {
    type V = Step;

    open spec fn view(&self) -> Step {
        match self {
            PathElement::Key(key) => Step::Key(key@),
            PathElement::Idx(idx) => Step::Idx(*idx),
        }
    }
}

/// The models of a sequence of path elements.
pub open spec fn steps(path: Seq<PathElement>) -> Seq<Step> {
    Seq::new(path.len(), |i: int| path[i]@)
}

/// The index that a path segment writes: the segment is made of decimal
/// digits alone, at least one, and their value fits in `usize`.
pub open spec fn index_of(seg: Seq<char>) -> Option<usize> {
    if seg.len() > 0 && run_len(seg, 0) == seg.len() && decimal(seg, 0, seg.len() as int)
        <= usize::MAX {
        Some(decimal(seg, 0, seg.len() as int) as usize)
    } else {
        None
    }
}

/// A segment that writes an index is an index step, any other a key step.
pub open spec fn classify(seg: Seq<char>) -> Step {
    match index_of(seg) {
        Some(idx) => Step::Idx(idx),
        None => Step::Key(seg),
    }
}

/// The steps that a dotted path writes.
pub open spec fn steps_of(path: Seq<char>) -> Seq<Step> {
    let segs = split_dots(path);
    Seq::new(segs.len(), |i: int| classify(segs[i]))
}

impl Tree {
    /// The value stored under `key`, where `self` is a table that holds it.
    pub open spec fn at_key(self, key: Seq<char>) -> Option<Tree> {
        match self {
            Tree::Table(_, t) => match find(t, key) {
                Some(i) => Some(t[i].1),
                None => None,
            },
            _ => None,
        }
    }

    /// The element at `idx`, where `self` is an array that long.
    pub open spec fn at_position(self, idx: int) -> Option<Tree> {
        match self {
            Tree::Array(a) => if 0 <= idx < a.len() {
                Some(a[idx])
            } else {
                None
            },
            _ => None,
        }
    }

    /// The element at `idx`, where `self` is an array or a table array that
    /// long.
    pub open spec fn at_index(self, idx: int) -> Option<Tree> {
        match self {
            Tree::Array(a) => if 0 <= idx < a.len() {
                Some(a[idx])
            } else {
                None
            },
            Tree::TableArray(a) => if 0 <= idx < a.len() {
                Some(a[idx])
            } else {
                None
            },
            _ => None,
        }
    }

    /// The value that one step leads to.
    pub open spec fn at_step(self, step: Step) -> Option<Tree> {
        match step {
            Step::Key(key) => self.at_key(key),
            Step::Idx(idx) => self.at_index(idx as int),
        }
    }

    /// The value that the steps lead to, taken in turn; `None` as soon as one
    /// leads nowhere.
    pub open spec fn walk(self, path: Seq<Step>) -> Option<Tree>
        decreases path.len(),
    {
        if path.len() == 0 {
            Some(self)
        } else {
            match self.at_step(path[0]) {
                Some(next) => next.walk(path.drop_first()),
                None => None,
            }
        }
    }

    /// The value that the keys lead to, taken in turn.
    pub open spec fn walk_keys(self, keys: Seq<Seq<char>>) -> Option<Tree> {
        self.walk(Seq::new(keys.len(), |i: int| Step::Key(keys[i])))
    }

    /// The value at a dotted path.
    pub open spec fn lookup(self, path: Seq<char>) -> Option<Tree> {
        self.walk(steps_of(path))
    }
}

/// The model of an optional reference to a value.
pub open spec fn found(r: Option<&Value>) -> Option<Tree> {
    match r {
        Some(v) => Some(v@),
        None => None,
    }
}

/// The character sequences of string slices.
pub open spec fn slices(v: Seq<&str>) -> Seq<Seq<char>> {
    Seq::new(v.len(), |i: int| v[i]@)
}

/// Reads a path segment as an index.
pub fn parse_index(seg: &Vec<char>) -> (r: Option<usize>)
    ensures
        r == index_of(seg@),
{
    let ghost s = seg@;
    if seg.len() == 0 {
        return None;
    }
    let mut num: usize = 0;
    let mut fits = true;
    let mut i: usize = 0;
    while i < seg.len()
        invariant
            s == seg@,
            i <= seg.len(),
            run_len(s, 0) == i + run_len(s, i as int),
            fits ==> num as nat == decimal(s, 0, i as int),
            !fits ==> decimal(s, 0, i as int) > usize::MAX,
        decreases seg.len() - i,
    {
        match digit_of(seg[i], 10) {
            Some(d) => {
                assert(decimal(s, 0, i + 1) == decimal(s, 0, i as int) * 10 + d as nat);
                if fits && num <= (usize::MAX - d as usize) / 10 {
                    num = num * 10 + d as usize;
                } else {
                    fits = false;
                }
            },
            None => {
                assert(run_len(s, i as int) == 0);
                return None;
            },
        }
        i = i + 1;
    }
    if fits {
        Some(num)
    } else {
        None
    }
}

/// Reads a path segment as a step.
pub fn parse_step(seg: String) -> (r: PathElement)
    ensures
        r@ == classify(seg@),
{
    let chars = chars_of(seg.as_str());
    match parse_index(&chars) {
        Some(idx) => PathElement::Idx(idx),
        None => PathElement::Key(seg),
    }
}

impl Value {
    /// The value stored under `key` in a table.
    pub fn lookup_key(&self, key: &str) -> (r: Option<&Value>)
        ensures
            found(r) == self@.at_key(key@),
    {
        match self {
            Value::Table(opened, t) => {
                proof {
                    lemma_view_table(*opened, *t);
                }
                let k = key.to_owned();
                match find_key(t, &k) {
                    Some(i) => Some(&t[i].1),
                    None => None,
                }
            },
            _ => None,
        }
    }

    /// The element of an array at `idx`.
    pub fn lookup_vec(&self, idx: usize) -> (r: Option<&Value>)
        ensures
            found(r) == self@.at_position(idx as int),
    {
        match self {
            Value::Array(a) => {
                proof {
                    lemma_view_array(*a);
                }
                if idx < a.len() {
                    Some(&a[idx])
                } else {
                    None
                }
            },
            _ => None,
        }
    }

    /// The element of an array or of a table array at `idx`.
    pub fn lookup_idx(&self, idx: usize) -> (r: Option<&Value>)
        ensures
            found(r) == self@.at_index(idx as int),
    {
        match self {
            Value::Array(a) => {
                proof {
                    lemma_view_array(*a);
                }
                if idx < a.len() {
                    Some(&a[idx])
                } else {
                    None
                }
            },
            Value::TableArray(a) => {
                proof {
                    lemma_view_array(*a);
                }
                if idx < a.len() {
                    Some(&a[idx])
                } else {
                    None
                }
            },
            _ => None,
        }
    }

    /// The value that one step leads to.
    pub fn lookup_elm(&self, elm: &PathElement) -> (r: Option<&Value>)
        ensures
            found(r) == self@.at_step(elm@),
    {
        match elm {
            PathElement::Key(key) => self.lookup_key(key.as_str()),
            PathElement::Idx(idx) => self.lookup_idx(*idx),
        }
    }

    /// The value that the keys of `path` lead to, taken in turn.
    pub fn lookup_path(&self, path: &[&str]) -> (r: Option<&Value>)
        ensures
            found(r) == self@.walk_keys(slices(path@)),
    {
        let ghost all = Seq::new(path@.len(), |i: int| Step::Key(path@[i]@));
        let mut cur: &Value = self;
        let mut i: usize = 0;
        assert(all.subrange(0, all.len() as int) =~= all);
        assert(Seq::new(slices(path@).len(), |i: int| Step::Key(slices(path@)[i])) =~= all);
        while i < path.len()
            invariant
                i <= path.len(),
                all == Seq::new(path@.len(), |i: int| Step::Key(path@[i]@)),
                self@.walk_keys(slices(path@)) == self@.walk(all),
                cur@.walk(all.subrange(i as int, all.len() as int)) == self@.walk(all),
            decreases path.len() - i,
        {
            let ghost tail = all.subrange(i as int, all.len() as int);
            assert(tail.drop_first() =~= all.subrange(i + 1, all.len() as int));
            assert(tail[0] == Step::Key(path@[i as int]@));
            match cur.lookup_key(path[i]) {
                Some(next) => {
                    cur = next;
                },
                None => {
                    return None;
                },
            }
            i = i + 1;
        }
        Some(cur)
    }

    /// The value that the steps of `path` lead to, taken in turn.
    pub fn lookup_path_elts(&self, path: &[PathElement]) -> (r: Option<&Value>)
        ensures
            found(r) == self@.walk(steps(path@)),
    {
        let ghost all = steps(path@);
        let mut cur: &Value = self;
        let mut i: usize = 0;
        assert(all.subrange(0, all.len() as int) =~= all);
        while i < path.len()
            invariant
                i <= path.len(),
                all == steps(path@),
                cur@.walk(all.subrange(i as int, all.len() as int)) == self@.walk(all),
            decreases path.len() - i,
        {
            let ghost tail = all.subrange(i as int, all.len() as int);
            assert(tail.drop_first() =~= all.subrange(i + 1, all.len() as int));
            assert(tail[0] == path@[i as int]@);
            match cur.lookup_elm(&path[i]) {
                Some(next) => {
                    cur = next;
                },
                None => {
                    return None;
                },
            }
            i = i + 1;
        }
        Some(cur)
    }

    /// The value at a dotted path: the path is split at its dots, and a
    /// segment that writes a number is an index, any other a key.
    pub fn lookup(&self, path: &str) -> (r: Option<&Value>)
        ensures
            found(r) == self@.lookup(path@),
    {
        let chars = chars_of(path);
        let segs = split_segments(&chars);
        let ghost all = steps_of(path@);
        let mut elts: Vec<PathElement> = Vec::new();
        let mut i: usize = 0;
        assert(steps(elts@) =~= all.subrange(0, 0));
        while i < segs.len()
            invariant
                i <= segs.len(),
                strings(segs@) == split_dots(path@),
                all == steps_of(path@),
                steps(elts@) == all.subrange(0, i as int),
            decreases segs.len() - i,
        {
            let seg = segs[i].clone();
            assert(seg@ == strings(segs@)[i as int]);
            let ghost before = steps(elts@);
            elts.push(parse_step(seg));
            assert(steps(elts@) =~= before.push(all[i as int]));
            i = i + 1;
            assert(steps(elts@) =~= all.subrange(0, i as int));
        }
        assert(steps(elts@) =~= all);
        self.lookup_path_elts(elts.as_slice())
    }
}

} // verus!
