//! The visitor that builds the value tree from the events of a document.

use vstd::prelude::*;
use vstd::slice::slice_subrange;
use crate::text::{chars_of, split_dots, split_segments, strings};
use crate::value::{entries, find, lemma_view_array, lemma_view_table, trees, Tree, Value};
use crate::visitor::{Event, Visitor};

verus! {

/// The entries of a table, in stored order.
pub type Entries = Seq<(Seq<char>, Tree)>;

/// A table that a section header opened and that holds nothing yet.
pub open spec fn fresh_table() -> Tree {
    Tree::Table(true, Seq::empty())
}

/// Opens the section `path` below the table `t`, and gives the table that
/// results; `None` where the header is refused.
///
/// Tables on the way are made where they are missing, and marked as not yet
/// opened; a table array on the way stands for its last table. At the last
/// segment a plain header makes an opened table or opens one that no header
/// opened before, and an array header makes a table array of one table or
/// appends a table to the one that is there. Refused are an empty segment, a
/// segment that names a value that is no table, a plain header for a table
/// that is open already or for a table array, and an array header for a
/// plain table.
pub open spec fn create(t: Entries, path: Seq<Seq<char>>, is_array: bool) -> Option<Entries>
    decreases path.len(),
{
    if path.len() == 0 || path[0].len() == 0 {
        None
    } else {
        let head = path[0];
        let rest = path.drop_first();
        let terminal = path.len() == 1;
        match find(t, head) {
            Some(i) => match t[i].1 {
                Tree::TableArray(tables) => if tables.len() == 0 {
                    None
                } else if terminal {
                    if is_array {
                        Some(t.update(i, (t[i].0, Tree::TableArray(tables.push(fresh_table())))))
                    } else {
                        None
                    }
                } else {
                    match tables.last() {
                        Tree::Table(opened, inner) => match create(inner, rest, is_array) {
                            Some(inner2) => Some(
                                t.update(
                                    i,
                                    (
                                        t[i].0,
                                        Tree::TableArray(
                                            tables.update(
                                                tables.len() - 1,
                                                Tree::Table(opened, inner2),
                                            ),
                                        ),
                                    ),
                                ),
                            ),
                            None => None,
                        },
                        _ => None,
                    }
                },
                Tree::Table(opened, inner) => if terminal {
                    if is_array || opened {
                        None
                    } else {
                        Some(t.update(i, (t[i].0, Tree::Table(true, inner))))
                    }
                } else {
                    match create(inner, rest, is_array) {
                        Some(inner2) => Some(t.update(i, (t[i].0, Tree::Table(opened, inner2)))),
                        None => None,
                    }
                },
                _ => None,
            },
            None => if terminal {
                if is_array {
                    Some(t.push((head, Tree::TableArray(seq![fresh_table()]))))
                } else {
                    Some(t.push((head, fresh_table())))
                }
            } else {
                match create(Seq::empty(), rest, is_array) {
                    Some(inner) => Some(t.push((head, Tree::Table(false, inner)))),
                    None => None,
                }
            },
        }
    }
}

/// Stores `val` under `key` in the table that `path` leads to from the table
/// `t`, and gives the table that results; `None` where the path leads to no
/// table or the key is taken. A table array on the way stands for its last
/// table.
pub open spec fn insert(t: Entries, path: Seq<Seq<char>>, key: Seq<char>, val: Tree) -> Option<
    Entries,
>
    decreases path.len(),
{
    if path.len() == 0 {
        match find(t, key) {
            Some(_) => None,
            None => Some(t.push((key, val))),
        }
    } else {
        let rest = path.drop_first();
        match find(t, path[0]) {
            Some(i) => match t[i].1 {
                Tree::Table(opened, inner) => match insert(inner, rest, key, val) {
                    Some(inner2) => Some(t.update(i, (t[i].0, Tree::Table(opened, inner2)))),
                    None => None,
                },
                Tree::TableArray(tables) => if tables.len() == 0 {
                    None
                } else {
                    match tables.last() {
                        Tree::Table(opened, inner) => match insert(inner, rest, key, val) {
                            Some(inner2) => Some(
                                t.update(
                                    i,
                                    (
                                        t[i].0,
                                        Tree::TableArray(
                                            tables.update(
                                                tables.len() - 1,
                                                Tree::Table(opened, inner2),
                                            ),
                                        ),
                                    ),
                                ),
                            ),
                            None => None,
                        },
                        _ => None,
                    }
                },
                _ => None,
            },
            None => None,
        }
    }
}

/// The table that assignments under the section `path` go to: the table
/// that the path leads to from the table `t`, where a table array on the
/// way, and at its end, stands for its last table.
pub open spec fn target(t: Entries, path: Seq<Seq<char>>) -> Option<Entries>
    decreases path.len(),
{
    if path.len() == 0 {
        Some(t)
    } else {
        match find(t, path[0]) {
            Some(i) => match t[i].1 {
                Tree::Table(_, inner) => target(inner, path.drop_first()),
                Tree::TableArray(tables) => if tables.len() == 0 {
                    None
                } else {
                    match tables.last() {
                        Tree::Table(_, inner) => target(inner, path.drop_first()),
                        _ => None,
                    }
                },
                _ => None,
            },
            None => None,
        }
    }
}

/// The tables of the table array that `path` leads to from the table `t`,
/// where a table array on the way stands for its last table.
pub open spec fn tables_at(t: Entries, path: Seq<Seq<char>>) -> Option<Seq<Tree>>
    decreases path.len(),
{
    if path.len() == 0 {
        None
    } else {
        match find(t, path[0]) {
            Some(i) => match t[i].1 {
                Tree::Table(_, inner) => tables_at(inner, path.drop_first()),
                Tree::TableArray(tables) => if path.len() == 1 {
                    Some(tables)
                } else if tables.len() == 0 {
                    None
                } else {
                    match tables.last() {
                        Tree::Table(_, inner) => tables_at(inner, path.drop_first()),
                        _ => None,
                    }
                },
                _ => None,
            },
            None => None,
        }
    }
}

/// What a [`ValueBuilder`] holds: the entries of the root table, and the
/// path of the section that assignments go to.
pub struct BuilderState {
    pub root: Entries,
    pub path: Seq<Seq<char>>,
}

/// The state that follows `ev`, or `None` where the event is refused.
pub open spec fn build_step(pre: BuilderState, ev: Event) -> Option<BuilderState> {
    match ev {
        Event::Section(name, is_array) => {
            let path = split_dots(name);
            match create(pre.root, path, is_array) {
                Some(root) => Some(BuilderState { root, path }),
                None => None,
            }
        },
        Event::Pair(key, val) => match insert(pre.root, pre.path, key, val) {
            Some(root) => Some(BuilderState { root, path: pre.path }),
            None => None,
        },
    }
}

/// The index of the first entry of `t` stored under `key`.
pub fn find_key(t: &Vec<(String, Value)>, key: &String) -> (r: Option<usize>)
    ensures
        match r {
            Some(i) => find(entries(t@), key@) == Some(i as int) && i < t.len(),
            None => find(entries(t@), key@) is None,
        },
{
    let ghost all = entries(t@);
    let mut i: usize = 0;
    assert(all.subrange(0, all.len() as int) =~= all);
    while i < t.len()
        invariant
            i <= t.len(),
            all == entries(t@),
            match find(all.subrange(i as int, all.len() as int), key@) {
                Some(k) => find(all, key@) == Some(k + i),
                None => find(all, key@) is None,
            },
        decreases t.len() - i,
    {
        let ghost tail = all.subrange(i as int, all.len() as int);
        assert(tail.drop_first() =~= all.subrange(i + 1, all.len() as int));
        assert(tail[0] == all[i as int]);
        if t[i].0 == *key {
            return Some(i);
        }
        i = i + 1;
    }
    None
}

/// Builds the root table from section headers and assignments.
pub struct ValueBuilder {
    root: Vec<(String, Value)>,
    current_path: Vec<String>,
}

impl ValueBuilder {
    /// A builder with an empty root table and an empty current path.
    pub fn new() -> (b: ValueBuilder)
        ensures
            b.state() == (BuilderState { root: Seq::empty(), path: Seq::empty() }),
    {
        let b = ValueBuilder { root: Vec::new(), current_path: Vec::new() };
        assert(entries(b.root@) =~= Seq::empty());
        assert(strings(b.current_path@) =~= Seq::empty());
        b
    }

    /// The entries of the root table.
    pub fn get_root(&self) -> (root: &Vec<(String, Value)>)
        ensures
            entries(root@) == self.state().root,
    {
        &self.root
    }

    /// Gives up the builder for the entries of its root table.
    pub fn into_root(self) -> (root: Vec<(String, Value)>)
        ensures
            entries(root@) == self.state().root,
    {
        self.root
    }

    /// An opened table without entries.
    fn fresh() -> (v: Value)
        ensures
            v@ == fresh_table(),
    {
        let empty: Vec<(String, Value)> = Vec::new();
        proof {
            lemma_view_table(true, empty);
            assert(entries(empty@) =~= Seq::empty());
        }
        Value::Table(true, empty)
    }

    /// Opens the section `path` below the table `ht`. Where the header is
    /// refused the table stays as it is.
    pub fn recursive_create_tree(
        path: &[String],
        ht: &mut Vec<(String, Value)>,
        is_array: bool,
    ) -> (ok: bool)
        requires
            path.len() > 0,
        ensures
            ({
                let r = create(entries(old(ht)@), strings(path@), is_array);
                &&& ok == (r is Some)
                &&& entries(final(ht)@) == (if ok {
                    r.unwrap()
                } else {
                    entries(old(ht)@)
                })
            }),
        decreases path.len(),
    {
        let ghost t = entries(ht@);
        let ghost segs = strings(path@);
        let head = &path[0];
        if head.as_str().is_empty() {
            return false;
        }
        let terminal = path.len() == 1;
        let tail = slice_subrange(path, 1, path.len());
        assert(segs.drop_first() =~= strings(tail@));
        match find_key(ht, head) {
            Some(i) => {
                let entry = &mut ht[i];
                match &mut entry.1 {
                    Value::TableArray(table_array) => {
                        let ghost tables_before = *table_array;
                        proof {
                            lemma_view_array(tables_before);
                        }
                        let n = table_array.len();
                        if n == 0 {
                            assert(entries(ht@) =~= t);
                            return false;
                        }
                        if terminal {
                            if is_array {
                                let fresh = Self::fresh();
                                table_array.push(fresh);
                                proof {
                                    lemma_view_array(*table_array);
                                    assert(trees(table_array@) =~= trees(tables_before@).push(
                                        fresh_table(),
                                    ));
                                    assert(entries(ht@) =~= t.update(
                                        i as int,
                                        (t[i as int].0, Tree::TableArray(trees(table_array@))),
                                    ));
                                }
                                true
                            } else {
                                assert(entries(ht@) =~= t);
                                false
                            }
                        } else {
                            match &mut table_array[n - 1] {
                                Value::Table(opened, inner) => {
                                    let ghost inner_before = *inner;
                                    let ghost flag = *opened;
                                    proof {
                                        lemma_view_table(flag, inner_before);
                                    }
                                    let ok = Self::recursive_create_tree(tail, inner, is_array);
                                    proof {
                                        lemma_view_table(flag, *inner);
                                        lemma_view_array(*table_array);
                                        assert(trees(table_array@) =~= trees(
                                            tables_before@,
                                        ).update(n - 1, Tree::Table(flag, entries(inner@))));
                                        assert(entries(ht@) =~= t.update(
                                            i as int,
                                            (t[i as int].0, Tree::TableArray(trees(table_array@))),
                                        ));
                                        if !ok {
                                            assert(trees(table_array@) =~= trees(tables_before@));
                                            assert(entries(ht@) =~= t);
                                        }
                                    }
                                    ok
                                },
                                _ => {
                                    proof {
                                        lemma_view_array(*table_array);
                                        assert(table_array@ =~= tables_before@);
                                        assert(entries(ht@) =~= t);
                                    }
                                    false
                                },
                            }
                        }
                    },
                    Value::Table(opened, table) => {
                        let ghost inner_before = *table;
                        let ghost flag = *opened;
                        proof {
                            lemma_view_table(flag, inner_before);
                        }
                        if terminal {
                            if is_array || *opened {
                                assert(entries(ht@) =~= t);
                                false
                            } else {
                                *opened = true;
                                proof {
                                    lemma_view_table(true, *table);
                                    assert(entries(ht@) =~= t.update(
                                        i as int,
                                        (t[i as int].0, Tree::Table(true, entries(table@))),
                                    ));
                                }
                                true
                            }
                        } else {
                            let ok = Self::recursive_create_tree(tail, table, is_array);
                            proof {
                                lemma_view_table(flag, *table);
                                assert(entries(ht@) =~= t.update(
                                    i as int,
                                    (t[i as int].0, Tree::Table(flag, entries(table@))),
                                ));
                                if !ok {
                                    assert(entries(ht@) =~= t);
                                }
                            }
                            ok
                        }
                    },
                    _ => {
                        assert(entries(ht@) =~= t);
                        false
                    },
                }
            },
            None => {
                let value = if terminal {
                    if is_array {
                        let mut tables: Vec<Value> = Vec::new();
                        tables.push(Self::fresh());
                        proof {
                            lemma_view_array(tables);
                            assert(trees(tables@) =~= seq![fresh_table()]);
                        }
                        Value::TableArray(tables)
                    } else {
                        Self::fresh()
                    }
                } else {
                    let mut table: Vec<(String, Value)> = Vec::new();
                    assert(entries(table@) =~= Seq::empty());
                    let ok = Self::recursive_create_tree(tail, &mut table, is_array);
                    if !ok {
                        return false;
                    }
                    proof {
                        lemma_view_table(false, table);
                    }
                    Value::Table(false, table)
                };
                let key = head.clone();
                ht.push((key, value));
                assert(entries(ht@) =~= t.push((segs[0], value@)));
                true
            },
        }
    }

    /// Stores `val` under `key` in the table that `path` leads to from the
    /// table `ht`. Where the assignment is refused the table stays as it is.
    pub fn insert_value(
        path: &[String],
        key: &str,
        ht: &mut Vec<(String, Value)>,
        val: Value,
    ) -> (ok: bool)
        ensures
            ({
                let r = insert(entries(old(ht)@), strings(path@), key@, val@);
                &&& ok == (r is Some)
                &&& entries(final(ht)@) == (if ok {
                    r.unwrap()
                } else {
                    entries(old(ht)@)
                })
            }),
        decreases path.len(),
    {
        let ghost t = entries(ht@);
        let ghost segs = strings(path@);
        if path.len() == 0 {
            let key = key.to_owned();
            match find_key(ht, &key) {
                Some(_) => false,
                None => {
                    ht.push((key, val));
                    assert(entries(ht@) =~= t.push((key@, val@)));
                    true
                },
            }
        } else {
            let tail = slice_subrange(path, 1, path.len());
            assert(segs.drop_first() =~= strings(tail@));
            match find_key(ht, &path[0]) {
                Some(i) => {
                    let entry = &mut ht[i];
                    match &mut entry.1 {
                        Value::Table(opened, table) => {
                            let ghost flag = *opened;
                            proof {
                                lemma_view_table(flag, *table);
                            }
                            let ok = Self::insert_value(tail, key, table, val);
                            proof {
                                lemma_view_table(flag, *table);
                                assert(entries(ht@) =~= t.update(
                                    i as int,
                                    (t[i as int].0, Tree::Table(flag, entries(table@))),
                                ));
                                if !ok {
                                    assert(entries(ht@) =~= t);
                                }
                            }
                            ok
                        },
                        Value::TableArray(table_array) => {
                            let ghost tables_before = *table_array;
                            proof {
                                lemma_view_array(tables_before);
                            }
                            let n = table_array.len();
                            if n == 0 {
                                assert(entries(ht@) =~= t);
                                return false;
                            }
                            match &mut table_array[n - 1] {
                                Value::Table(opened, inner) => {
                                    let ghost flag = *opened;
                                    proof {
                                        lemma_view_table(flag, *inner);
                                    }
                                    let ok = Self::insert_value(tail, key, inner, val);
                                    proof {
                                        lemma_view_table(flag, *inner);
                                        lemma_view_array(*table_array);
                                        assert(trees(table_array@) =~= trees(
                                            tables_before@,
                                        ).update(n - 1, Tree::Table(flag, entries(inner@))));
                                        assert(entries(ht@) =~= t.update(
                                            i as int,
                                            (t[i as int].0, Tree::TableArray(trees(table_array@))),
                                        ));
                                        if !ok {
                                            assert(trees(table_array@) =~= trees(tables_before@));
                                            assert(entries(ht@) =~= t);
                                        }
                                    }
                                    ok
                                },
                                _ => {
                                    proof {
                                        lemma_view_array(*table_array);
                                        assert(table_array@ =~= tables_before@);
                                        assert(entries(ht@) =~= t);
                                    }
                                    false
                                },
                            }
                        },
                        _ => {
                            assert(entries(ht@) =~= t);
                            false
                        },
                    }
                },
                None => false,
            }
        }
    }
}

impl Visitor for ValueBuilder {
    type State = BuilderState;

    closed spec fn state(&self) -> BuilderState {
        BuilderState { root: entries(self.root@), path: strings(self.current_path@) }
    }

    open spec fn step(pre: BuilderState, ev: Event) -> Option<BuilderState> {
        build_step(pre, ev)
    }

    fn section(&mut self, name: String, is_array: bool) -> (ok: bool) {
        let chars = chars_of(name.as_str());
        let path = split_segments(&chars);
        let ok = Self::recursive_create_tree(path.as_slice(), &mut self.root, is_array);
        if ok {
            self.current_path = path;
        }
        ok
    }

    fn pair(&mut self, key: String, val: Value) -> (ok: bool) {
        Self::insert_value(self.current_path.as_slice(), key.as_str(), &mut self.root, val)
    }
}

} // verus!
