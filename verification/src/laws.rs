//! What holds of the grammar, of the building of the tree and of lookup.

use vstd::prelude::*;
use crate::grammar::{
    array_items, at, digit_at, digits_at, escape_at, float_rest, fraction_at, is_bare_control,
    item_at, key_stops, run, run_len, section_stops, skip_blank, skip_spaces, string_body,
    token_end, value_at, Item, Outcome,
};
use crate::builder::{
    build_step, create, fresh_table, insert, tables_at, target, BuilderState, Entries, ValueBuilder,
};
use crate::document::document;
use crate::error::ErrorView;
use crate::parser::{lemma_run_holds_digits, lemma_skip_blank_ge, lemma_skip_spaces_ge};
use crate::lookup::{index_of, steps_of, Step};
use crate::text::{segment_end, split_dots};
use crate::value::{find, Tree, Value};
use crate::visitor::{Event, Visitor};
use crate::wellformed::entries_wf;

verus! {

/// What follows the point of a float is in order: each of its digits is
/// below ten.
pub proof fn lemma_float_rest_wf(s: Seq<char>, i: int, whole: u64, negative: bool)
    ensures
        float_rest(s, i, whole, negative).0.wf(),
        float_rest(s, i, whole, negative).0 is Absent || float_rest(s, i, whole, negative).0 is Float,
{
    let v = float_rest(s, i, whole, negative).0;
    if v is Float {
        let digits = fraction_at(s, i);
        assert forall|k: int| 0 <= k < digits.len() implies #[trigger] digits[k] < 10 by {
            lemma_run_holds_digits(s, i, k);
        }
    }
}

/// The value read at a position is in order, and it is a literal where it is
/// not `Absent`.
pub proof fn lemma_value_at_wf(s: Seq<char>, i: int)
    ensures
        value_at(s, i).0.wf(),
        value_at(s, i).0 is Absent || value_at(s, i).0.is_literal(),
    decreases s.len() - i, 0nat,
{
    let p = skip_blank(s, i);
    match at(s, p) {
        None => {},
        Some(c) => {
            if c == '-' {
                let (value, _n, q) = digits_at(s, p + 1);
                if value is Some {
                    lemma_float_rest_wf(s, q + 1, value.unwrap(), true);
                }
            } else if '0' <= c <= '9' {
                let (value, _n, q) = digits_at(s, p);
                if value is Some {
                    lemma_float_rest_wf(s, q + 1, value.unwrap(), false);
                }
            } else if c == '[' {
                if p >= i {
                    lemma_array_items_wf(s, p + 1, Seq::empty());
                }
            }
        },
    }
}

/// The array read from a run of elements is in order: its elements are
/// literals of one kind.
pub proof fn lemma_array_items_wf(s: Seq<char>, i: int, acc: Seq<Tree>)
    requires
        forall|k: int| 0 <= k < acc.len() ==> acc[0].equiv(#[trigger] acc[k]) && acc[k].wf(),
    ensures
        array_items(s, i, acc).0.wf(),
        array_items(s, i, acc).0 is Absent || array_items(s, i, acc).0 is Array,
    decreases s.len() - i, 1nat,
{
    lemma_value_at_wf(s, i);
    let (v, p) = value_at(s, i);
    if v is Absent {
    } else if acc.len() > 0 && !acc[0].equiv(v) {
    } else {
        let q = skip_blank(s, p);
        let next = acc.push(v);
        assert forall|k: int| 0 <= k < next.len() implies next[0].equiv(#[trigger] next[k])
            && next[k].wf() by {
            if k < acc.len() {
                assert(next[k] == acc[k]);
            }
        }
        if at(s, q) == Some(',') {
            if q >= i {
                lemma_array_items_wf(s, q + 1, next);
            }
        }
    }
}

/// `find` gives the first entry with the key, and `None` where no entry has
/// it.
pub proof fn lemma_find(t: Entries, key: Seq<char>)
    ensures
        match find(t, key) {
            Some(i) => 0 <= i < t.len() && t[i].0 == key && forall|j: int|
                0 <= j < i ==> (#[trigger] t[j]).0 != key,
            None => forall|j: int| 0 <= j < t.len() ==> (#[trigger] t[j]).0 != key,
        },
    decreases t.len(),
{
    if t.len() > 0 && t[0].0 != key {
        let rest = t.drop_first();
        lemma_find(rest, key);
        match find(rest, key) {
            Some(i) => {
                assert forall|j: int| 0 <= j < i + 1 implies (#[trigger] t[j]).0 != key by {
                    if j > 0 {
                        assert(t[j] == rest[j - 1]);
                    }
                }
            },
            None => {
                assert forall|j: int| 0 <= j < t.len() implies (#[trigger] t[j]).0 != key by {
                    if j > 0 {
                        assert(t[j] == rest[j - 1]);
                    }
                }
            },
        }
    }
}

/// The other way round: the first entry with the key is what `find` gives.
pub proof fn lemma_find_first(t: Entries, key: Seq<char>, i: int)
    requires
        0 <= i < t.len(),
        t[i].0 == key,
        forall|j: int| 0 <= j < i ==> (#[trigger] t[j]).0 != key,
    ensures
        find(t, key) == Some(i),
{
    lemma_find(t, key);
}

/// A table stays in order where the value of one entry is replaced by a
/// value that is in order.
pub proof fn lemma_update_wf(t: Entries, i: int, v: Tree)
    requires
        entries_wf(t),
        0 <= i < t.len(),
        v.wf(),
        !(v is Absent),
    ensures
        entries_wf(t.update(i, (t[i].0, v))),
{
    let u = t.update(i, (t[i].0, v));
    assert forall|a: int, b: int| 0 <= a < b < u.len() implies (#[trigger] u[a]).0 != (
    #[trigger] u[b]).0 by {
        assert(u[a].0 == t[a].0);
        assert(u[b].0 == t[b].0);
    }
    assert forall|a: int| 0 <= a < u.len() implies !((#[trigger] u[a]).1 is Absent)
        && u[a].1.wf() by {
        if a != i {
            assert(u[a] == t[a]);
        }
    }
}

/// A table stays in order where an entry is added whose key is new and whose
/// value is in order.
pub proof fn lemma_push_wf(t: Entries, key: Seq<char>, v: Tree)
    requires
        entries_wf(t),
        find(t, key) is None,
        v.wf(),
        !(v is Absent),
    ensures
        entries_wf(t.push((key, v))),
{
    lemma_find(t, key);
    let u = t.push((key, v));
    assert forall|a: int, b: int| 0 <= a < b < u.len() implies (#[trigger] u[a]).0 != (
    #[trigger] u[b]).0 by {
        assert(u[a] == t[a]);
        if b < t.len() {
            assert(u[b] == t[b]);
        }
    }
    assert forall|a: int| 0 <= a < u.len() implies !((#[trigger] u[a]).1 is Absent)
        && u[a].1.wf() by {
        if a < t.len() {
            assert(u[a] == t[a]);
        }
    }
}

/// A table array stays in order where its last table is replaced by a table
/// that is in order.
pub proof fn lemma_last_table_wf(tables: Seq<Tree>, opened: bool, inner: Entries)
    requires
        Tree::TableArray(tables).wf(),
        entries_wf(inner),
    ensures
        Tree::TableArray(tables.update(tables.len() - 1, Tree::Table(opened, inner))).wf(),
        Tree::TableArray(tables.push(Tree::Table(opened, inner))).wf(),
{
    let u = tables.update(tables.len() - 1, Tree::Table(opened, inner));
    assert forall|a: int| 0 <= a < u.len() implies (#[trigger] u[a]) is Table && u[a].wf() by {
        if a != tables.len() - 1 {
            assert(u[a] == tables[a]);
        }
    }
    let w = tables.push(Tree::Table(opened, inner));
    assert forall|a: int| 0 <= a < w.len() implies (#[trigger] w[a]) is Table && w[a].wf() by {
        if a < tables.len() {
            assert(w[a] == tables[a]);
        }
    }
}

/// Opening a section keeps the tree in order.
pub proof fn lemma_create_wf(t: Entries, path: Seq<Seq<char>>, is_array: bool)
    requires
        entries_wf(t),
    ensures
        create(t, path, is_array) is Some ==> entries_wf(create(t, path, is_array).unwrap()),
    decreases path.len(),
{
    if path.len() == 0 || path[0].len() == 0 {
    } else {
        let head = path[0];
        let rest = path.drop_first();
        let terminal = path.len() == 1;
        lemma_find(t, head);
        assert(fresh_table().wf());
        match find(t, head) {
            Some(i) => {
                assert(t[i].1.wf());
                match t[i].1 {
                    Tree::TableArray(tables) => {
                        if tables.len() > 0 {
                            if terminal {
                                if is_array {
                                    lemma_last_table_wf(tables, true, Seq::empty());
                                    lemma_update_wf(
                                        t,
                                        i,
                                        Tree::TableArray(tables.push(fresh_table())),
                                    );
                                }
                            } else {
                                assert(tables.last() == tables[tables.len() - 1]);
                                match tables.last() {
                                    Tree::Table(opened, inner) => {
                                        assert(tables[tables.len() - 1].wf());
                                        lemma_create_wf(inner, rest, is_array);
                                        match create(inner, rest, is_array) {
                                            Some(inner2) => {
                                                lemma_last_table_wf(tables, opened, inner2);
                                                lemma_update_wf(
                                                    t,
                                                    i,
                                                    Tree::TableArray(
                                                        tables.update(
                                                            tables.len() - 1,
                                                            Tree::Table(opened, inner2),
                                                        ),
                                                    ),
                                                );
                                            },
                                            None => {},
                                        }
                                    },
                                    _ => {},
                                }
                            }
                        }
                    },
                    Tree::Table(opened, inner) => {
                        if terminal {
                            if !(is_array || opened) {
                                lemma_update_wf(t, i, Tree::Table(true, inner));
                            }
                        } else {
                            lemma_create_wf(inner, rest, is_array);
                            match create(inner, rest, is_array) {
                                Some(inner2) => {
                                    lemma_update_wf(t, i, Tree::Table(opened, inner2));
                                },
                                None => {},
                            }
                        }
                    },
                    _ => {},
                }
            },
            None => {
                if terminal {
                    if is_array {
                        let tables = seq![fresh_table()];
                        assert(Tree::TableArray(tables).wf());
                        lemma_push_wf(t, head, Tree::TableArray(tables));
                    } else {
                        lemma_push_wf(t, head, fresh_table());
                    }
                } else {
                    assert(entries_wf(Seq::empty()));
                    lemma_create_wf(Seq::empty(), rest, is_array);
                    match create(Seq::empty(), rest, is_array) {
                        Some(inner) => {
                            lemma_push_wf(t, head, Tree::Table(false, inner));
                        },
                        None => {},
                    }
                }
            },
        }
    }
}

/// Storing a value that is in order keeps the tree in order.
pub proof fn lemma_insert_wf(t: Entries, path: Seq<Seq<char>>, key: Seq<char>, val: Tree)
    requires
        entries_wf(t),
        val.wf(),
        !(val is Absent),
    ensures
        insert(t, path, key, val) is Some ==> entries_wf(insert(t, path, key, val).unwrap()),
    decreases path.len(),
{
    if path.len() == 0 {
        if find(t, key) is None {
            lemma_push_wf(t, key, val);
        }
    } else {
        let rest = path.drop_first();
        lemma_find(t, path[0]);
        match find(t, path[0]) {
            Some(i) => {
                assert(t[i].1.wf());
                match t[i].1 {
                    Tree::Table(opened, inner) => {
                        lemma_insert_wf(inner, rest, key, val);
                        match insert(inner, rest, key, val) {
                            Some(inner2) => {
                                lemma_update_wf(t, i, Tree::Table(opened, inner2));
                            },
                            None => {},
                        }
                    },
                    Tree::TableArray(tables) => {
                        if tables.len() > 0 {
                            assert(tables.last() == tables[tables.len() - 1]);
                            match tables.last() {
                                Tree::Table(opened, inner) => {
                                    assert(tables[tables.len() - 1].wf());
                                    lemma_insert_wf(inner, rest, key, val);
                                    match insert(inner, rest, key, val) {
                                        Some(inner2) => {
                                            lemma_last_table_wf(tables, opened, inner2);
                                            lemma_update_wf(
                                                t,
                                                i,
                                                Tree::TableArray(
                                                    tables.update(
                                                        tables.len() - 1,
                                                        Tree::Table(opened, inner2),
                                                    ),
                                                ),
                                            );
                                        },
                                        None => {},
                                    }
                                },
                                _ => {},
                            }
                        }
                    },
                    _ => {},
                }
            },
            None => {},
        }
    }
}

/// Whatever a document holds, the tree that is built from it stays in order.
pub proof fn lemma_run_wf(s: Seq<char>, i: int, st: BuilderState)
    requires
        entries_wf(st.root),
    ensures
        entries_wf(run::<ValueBuilder>(s, i, st).state.root),
    decreases s.len() - i,
{
    let (item, p) = item_at(s, i);
    match item {
        Item::Found(ev) => {
            match ev {
                Event::Section(name, is_array) => {
                    lemma_create_wf(st.root, split_dots(name), is_array);
                },
                Event::Pair(key, val) => {
                    lemma_item_value_wf(s, i);
                    lemma_insert_wf(st.root, st.path, key, val);
                },
            }
            match build_step(st, ev) {
                Some(next) => {
                    if i < p <= s.len() {
                        lemma_run_wf(s, p, next);
                    }
                },
                None => {},
            }
        },
        _ => {},
    }
}

/// The value of an assignment is in order and not `Absent`.
pub proof fn lemma_item_value_wf(s: Seq<char>, i: int)
    ensures
        match item_at(s, i).0 {
            Item::Found(Event::Pair(_, val)) => val.wf() && !(val is Absent),
            _ => true,
        },
{
    let p = skip_blank(s, i);
    match at(s, p) {
        Some(c) => {
            if c != '[' {
                let end = token_end(s, p, key_stops());
                let q = skip_spaces(s, end);
                lemma_value_at_wf(s, q + 1);
            }
        },
        None => {},
    }
}

/// The tree of a document is in order: it has the invariants of
/// [`Tree::wf`].
pub proof fn lemma_document_wf(s: Seq<char>, fault: Option<Seq<char>>)
    ensures
        match document(s, fault) {
            Ok(tree) => tree.wf(),
            Err(_) => true,
        },
{
    let start = BuilderState { root: Seq::empty(), path: Seq::empty() };
    assert(entries_wf(start.root));
    lemma_run_wf(s, 0, start);
}

/// Replacing the value of an entry changes no key, and so nothing that
/// `find` gives.
pub proof fn lemma_find_update(t: Entries, i: int, v: Tree, key: Seq<char>)
    requires
        0 <= i < t.len(),
    ensures
        find(t.update(i, (t[i].0, v)), key) == find(t, key),
{
    let u = t.update(i, (t[i].0, v));
    lemma_find(t, key);
    assert forall|j: int| 0 <= j < t.len() implies (#[trigger] u[j]).0 == t[j].0 by {}
    match find(t, key) {
        Some(k) => {
            assert forall|j: int| 0 <= j < k implies (#[trigger] u[j]).0 != key by {
                assert(t[j].0 != key);
            }
            lemma_find_first(u, key, k);
        },
        None => {
            lemma_find(u, key);
            if find(u, key) is Some {
                let k = find(u, key).unwrap();
                assert(t[k].0 != key);
            }
        },
    }
}

/// What `find` gives after an entry was added at the end.
pub proof fn lemma_find_push(t: Entries, k: Seq<char>, v: Tree, key: Seq<char>)
    ensures
        find(t.push((k, v)), key) == (if find(t, key) is Some {
            find(t, key)
        } else if k == key {
            Some(t.len() as int)
        } else {
            None
        }),
{
    let u = t.push((k, v));
    lemma_find(t, key);
    assert forall|j: int| 0 <= j < t.len() implies (#[trigger] u[j]) == t[j] by {}
    match find(t, key) {
        Some(i) => {
            assert forall|j: int| 0 <= j < i implies (#[trigger] u[j]).0 != key by {
                assert(t[j].0 != key);
            }
            lemma_find_first(u, key, i);
        },
        None => {
            if k == key {
                assert forall|j: int| 0 <= j < t.len() implies (#[trigger] u[j]).0 != key by {
                    assert(t[j].0 != key);
                }
                lemma_find_first(u, key, t.len() as int);
            } else {
                lemma_find(u, key);
                if find(u, key) is Some {
                    let i = find(u, key).unwrap();
                    if i < t.len() {
                        assert(t[i].0 != key);
                    }
                }
            }
        },
    }
}

/// An assignment is taken where, and only where, the current section leads
/// to a table that has not its key yet; the value is then added at the end
/// of that table, which stays the table that the section leads to.
pub proof fn lemma_insert_at_target(t: Entries, path: Seq<Seq<char>>, key: Seq<char>, val: Tree)
    ensures
        insert(t, path, key, val) is Some <==> (target(t, path) is Some && find(
            target(t, path).unwrap(),
            key,
        ) is None),
        insert(t, path, key, val) is Some ==> target(insert(t, path, key, val).unwrap(), path)
            == Some(target(t, path).unwrap().push((key, val))),
    decreases path.len(),
{
    if path.len() == 0 {
    } else {
        let rest = path.drop_first();
        lemma_find(t, path[0]);
        match find(t, path[0]) {
            Some(i) => {
                match t[i].1 {
                    Tree::Table(opened, inner) => {
                        lemma_insert_at_target(inner, rest, key, val);
                        match insert(inner, rest, key, val) {
                            Some(inner2) => {
                                lemma_find_update(t, i, Tree::Table(opened, inner2), path[0]);
                            },
                            None => {},
                        }
                    },
                    Tree::TableArray(tables) => {
                        if tables.len() > 0 {
                            match tables.last() {
                                Tree::Table(opened, inner) => {
                                    lemma_insert_at_target(inner, rest, key, val);
                                    match insert(inner, rest, key, val) {
                                        Some(inner2) => {
                                            let tables2 = tables.update(
                                                tables.len() - 1,
                                                Tree::Table(opened, inner2),
                                            );
                                            lemma_find_update(
                                                t,
                                                i,
                                                Tree::TableArray(tables2),
                                                path[0],
                                            );
                                            assert(tables2.last() == Tree::Table(opened, inner2));
                                        },
                                        None => {},
                                    }
                                },
                                _ => {},
                            }
                        }
                    },
                    _ => {},
                }
            },
            None => {},
        }
    }
}

/// After a section header was taken, its path leads to a table, so that
/// assignments have a place to go to; the same plain header is then refused,
/// the same array header is taken again, and a plain header is refused after
/// an array header.
///
/// An array header leaves a table array at the path, whose last table is
/// fresh: the tables that were there and one more, or that one alone where
/// the path led nowhere before.
pub proof fn lemma_create_then(t: Entries, path: Seq<Seq<char>>, is_array: bool)
    requires
        create(t, path, is_array) is Some,
    ensures
        target(create(t, path, is_array).unwrap(), path) is Some,
        create(create(t, path, is_array).unwrap(), path, false) is None,
        is_array ==> create(create(t, path, is_array).unwrap(), path, true) is Some,
        is_array ==> tables_at(create(t, path, is_array).unwrap(), path) == Some(
            match tables_at(t, path) {
                Some(tables) => tables.push(fresh_table()),
                None => seq![fresh_table()],
            },
        ),
        is_array ==> target(create(t, path, is_array).unwrap(), path) == Some(
            Seq::<(Seq<char>, Tree)>::empty(),
        ),
    decreases path.len(),
{
    reveal_with_fuel(target, 2);
    let t2 = create(t, path, is_array).unwrap();
    let head = path[0];
    let rest = path.drop_first();
    let terminal = path.len() == 1;
    lemma_find(t, head);
    if terminal {
        assert(rest.len() == 0);
    }
    match find(t, head) {
        Some(i) => {
            match t[i].1 {
                Tree::TableArray(tables) => {
                    if terminal {
                        let tables2 = tables.push(fresh_table());
                        lemma_find_update(t, i, Tree::TableArray(tables2), head);
                        assert(tables2.last() == fresh_table());
                    } else {
                        match tables.last() {
                            Tree::Table(opened, inner) => {
                                lemma_create_then(inner, rest, is_array);
                                let inner2 = create(inner, rest, is_array).unwrap();
                                let tables2 = tables.update(
                                    tables.len() - 1,
                                    Tree::Table(opened, inner2),
                                );
                                lemma_find_update(t, i, Tree::TableArray(tables2), head);
                                assert(tables2.last() == Tree::Table(opened, inner2));
                            },
                            _ => {},
                        }
                    }
                },
                Tree::Table(opened, inner) => {
                    if terminal {
                        lemma_find_update(t, i, Tree::Table(true, inner), head);
                    } else {
                        lemma_create_then(inner, rest, is_array);
                        let inner2 = create(inner, rest, is_array).unwrap();
                        lemma_find_update(t, i, Tree::Table(opened, inner2), head);
                    }
                },
                _ => {},
            }
        },
        None => {
            if terminal {
                if is_array {
                    let tables = seq![fresh_table()];
                    lemma_find_push(t, head, Tree::TableArray(tables), head);
                    assert(tables.last() == fresh_table());
                } else {
                    lemma_find_push(t, head, fresh_table(), head);
                }
            } else {
                lemma_create_then(Seq::empty(), rest, is_array);
                let inner = create(Seq::empty(), rest, is_array).unwrap();
                lemma_find_push(t, head, Tree::Table(false, inner), head);
                assert(tables_at(Seq::<(Seq<char>, Tree)>::empty(), rest) is None) by {
                    if rest.len() > 0 {
                        assert(find(Seq::<(Seq<char>, Tree)>::empty(), rest[0]) is None);
                    }
                }
            }
        },
    }
}

/// The path of the current section of a builder leads to a table.
pub open spec fn resolves(st: BuilderState) -> bool {
    target(st.root, st.path) is Some
}

/// At any time one table is the target of assignments: the path of the
/// current section leads to a table before the first event and after each
/// event that was taken.
pub proof fn lemma_step_resolves(st: BuilderState, ev: Event)
    requires
        build_step(st, ev) is Some,
    ensures
        resolves(build_step(st, ev).unwrap()),
        resolves(BuilderState { root: Seq::empty(), path: Seq::empty() }),
{
    match ev {
        Event::Section(name, is_array) => {
            lemma_create_then(st.root, split_dots(name), is_array);
        },
        Event::Pair(key, val) => {
            lemma_insert_at_target(st.root, st.path, key, val);
        },
    }
}

/// A key can be assigned once: after an assignment was taken, another to the
/// same key is refused.
pub proof fn lemma_duplicate_key_refused(
    st: BuilderState,
    key: Seq<char>,
    first: Tree,
    second: Tree,
)
    requires
        build_step(st, Event::Pair(key, first)) is Some,
    ensures
        build_step(build_step(st, Event::Pair(key, first)).unwrap(), Event::Pair(key, second))
            is None,
{
    let st1 = build_step(st, Event::Pair(key, first)).unwrap();
    lemma_insert_at_target(st.root, st.path, key, first);
    lemma_insert_at_target(st1.root, st1.path, key, second);
    lemma_find_push(target(st.root, st.path).unwrap(), key, first, key);
}

/// A section can be opened once: after a plain header was taken, the same
/// header is refused.
pub proof fn lemma_duplicate_section_refused(st: BuilderState, name: Seq<char>)
    requires
        build_step(st, Event::Section(name, false)) is Some,
    ensures
        build_step(
            build_step(st, Event::Section(name, false)).unwrap(),
            Event::Section(name, false),
        ) is None,
{
    lemma_create_then(st.root, split_dots(name), false);
}

/// An array header appends: after one was taken, the same array header is
/// taken again and adds one fresh table to the table array, which assignments
/// then go to, and the plain header of that name is refused.
pub proof fn lemma_table_array_appends(st: BuilderState, name: Seq<char>)
    requires
        build_step(st, Event::Section(name, true)) is Some,
    ensures
        ({
            let path = split_dots(name);
            let st1 = build_step(st, Event::Section(name, true)).unwrap();
            &&& tables_at(st1.root, path) is Some
            &&& build_step(st1, Event::Section(name, false)) is None
            &&& build_step(st1, Event::Section(name, true)) is Some
            &&& tables_at(build_step(st1, Event::Section(name, true)).unwrap().root, path)
                == Some(tables_at(st1.root, path).unwrap().push(fresh_table()))
        }),
{
    let path = split_dots(name);
    lemma_create_then(st.root, path, true);
    let st1 = build_step(st, Event::Section(name, true)).unwrap();
    lemma_create_then(st1.root, path, true);
}

/// The key steps of a path.
pub open spec fn key_steps(path: Seq<Seq<char>>) -> Seq<Step> {
    Seq::new(path.len(), |i: int| Step::Key(path[i]))
}

/// A section that is opened in an empty document can be looked up: its path
/// leads to the fresh table by keys, and each part of the path from its
/// start leads to a table.
pub proof fn lemma_created_path_resolves(path: Seq<Seq<char>>, k: int)
    requires
        create(Seq::empty(), path, false) is Some,
        0 <= k <= path.len(),
    ensures
        Tree::Table(false, create(Seq::empty(), path, false).unwrap()).walk_keys(path) == Some(
            fresh_table(),
        ),
        Tree::Table(false, create(Seq::empty(), path, false).unwrap()).walk_keys(path.take(k))
            is Some,
        Tree::Table(false, create(Seq::empty(), path, false).unwrap()).walk_keys(
            path.take(k),
        ).unwrap() is Table,
    decreases path.len(),
{
    reveal_with_fuel(Tree::walk, 2);
    let empty = Seq::<(Seq<char>, Tree)>::empty();
    let t = create(empty, path, false).unwrap();
    let root = Tree::Table(false, t);
    let head = path[0];
    let rest = path.drop_first();
    assert(find(empty, head) is None);
    assert(key_steps(path).drop_first() =~= key_steps(rest));
    assert(key_steps(path)[0] == Step::Key(head));
    if k > 0 {
        assert(key_steps(path.take(k)).drop_first() =~= key_steps(rest.take(k - 1)));
        assert(key_steps(path.take(k))[0] == Step::Key(head));
    }
    if path.len() == 1 {
        lemma_find_push(empty, head, fresh_table(), head);
        assert(rest.len() == 0);
    } else {
        let inner = create(empty, rest, false).unwrap();
        lemma_find_push(empty, head, Tree::Table(false, inner), head);
        lemma_created_path_resolves(rest, if k > 0 {
            k - 1
        } else {
            0
        });
    }
}

/// A dotted name without dots is its own single segment.
pub proof fn lemma_split_without_dot(name: Seq<char>)
    requires
        !name.contains('.'),
    ensures
        split_dots(name) == seq![name],
{
    lemma_segment_end_without_dot(name, 0);
    assert(name.subrange(0, name.len() as int) =~= name);
}

proof fn lemma_segment_end_without_dot(name: Seq<char>, i: int)
    requires
        !name.contains('.'),
        0 <= i <= name.len(),
    ensures
        segment_end(name, i) == name.len(),
    decreases name.len() - i,
{
    if i < name.len() {
        assert(name.contains(name[i]));
        lemma_segment_end_without_dot(name, i + 1);
    }
}

/// Where no segment of a dotted path writes an index, its steps are the keys
/// that its segments are.
pub proof fn lemma_steps_are_keys(name: Seq<char>)
    requires
        forall|i: int|
            0 <= i < split_dots(name).len() ==> index_of(#[trigger] split_dots(name)[i]) is None,
    ensures
        steps_of(name) == key_steps(split_dots(name)),
{
    assert(steps_of(name) =~= key_steps(split_dots(name)));
}

/// A section `[name]` at the start of a document makes `lookup(name)` lead
/// to its table, where no segment of the name writes an index.
pub proof fn lemma_section_then_lookup(name: Seq<char>)
    requires
        create(Seq::empty(), split_dots(name), false) is Some,
        forall|i: int|
            0 <= i < split_dots(name).len() ==> index_of(#[trigger] split_dots(name)[i]) is None,
    ensures
        Tree::Table(false, create(Seq::empty(), split_dots(name), false).unwrap()).lookup(name)
            == Some(fresh_table()),
{
    lemma_steps_are_keys(name);
    lemma_created_path_resolves(split_dots(name), 0);
}

/// A document that is one assignment has a root table with that one entry,
/// and `lookup` of the key leads to the value that was assigned, whatever
/// literal wrote it. The key is one without a dot that writes no index.
pub proof fn lemma_single_assignment(s: Seq<char>, key: Seq<char>, val: Tree, p: int)
    requires
        item_at(s, 0) == (Item::Found(Event::Pair(key, val)), p),
        0 < p <= s.len(),
        item_at(s, p).0 is End,
    ensures
        document(s, None) == Ok::<Tree, ErrorView>(Tree::Table(false, seq![(key, val)])),
        !key.contains('.') && index_of(key) is None ==> Tree::Table(
            false,
            seq![(key, val)],
        ).lookup(key) == Some(val),
{
    reveal_with_fuel(run, 2);
    reveal_with_fuel(Tree::walk, 2);
    let empty = Seq::<(Seq<char>, Tree)>::empty();
    let start = BuilderState { root: empty, path: Seq::empty() };
    assert(find(empty, key) is None);
    assert(empty.push((key, val)) =~= seq![(key, val)]);
    let st1 = build_step(start, Event::Pair(key, val)).unwrap();
    assert(st1.root == seq![(key, val)]);
    assert(run::<ValueBuilder>(s, 0, start) == run::<ValueBuilder>(s, p, st1));
    if !key.contains('.') && index_of(key) is None {
        lemma_split_without_dot(key);
        assert(steps_of(key) =~= seq![Step::Key(key)]);
        lemma_find_first(seq![(key, val)], key, 0);
        assert(seq![Step::Key(key)].drop_first().len() == 0);
    }
}

/// Lookup reads the tree and changes nothing: what it gives depends on the
/// model of the tree and the characters of the path alone, so that one path
/// gives one result on one tree, however often it is asked.
pub proof fn lemma_lookup_is_a_function(a: Value, b: Value, p: Seq<char>, q: Seq<char>)
    requires
        a@ == b@,
        p == q,
    ensures
        a@.lookup(p) == b@.lookup(q),
{
}

/// A run of digits ends within the input.
pub proof fn lemma_run_len_bound(s: Seq<char>, i: int)
    requires
        0 <= i <= s.len(),
    ensures
        i + run_len(s, i) <= s.len(),
    decreases s.len() - i,
{
    if i < s.len() && digit_at(s, i, 10).0 is Some {
        lemma_run_len_bound(s, i + 1);
    }
}

/// A token ends at or after its start, within the input.
pub proof fn lemma_token_end_bounds(s: Seq<char>, i: int, stops: Seq<char>)
    requires
        0 <= i <= s.len(),
    ensures
        i <= token_end(s, i, stops) <= s.len(),
    decreases s.len() - i,
{
    if i < s.len() && !stops.contains(s[i]) {
        lemma_token_end_bounds(s, i + 1, stops);
    }
}

/// Reading the rest of a string never moves backwards nor past the end.
pub proof fn lemma_string_body_bounds(s: Seq<char>, i: int, acc: Seq<char>)
    requires
        0 <= i <= s.len(),
    ensures
        i <= string_body(s, i, acc).1 <= s.len(),
    decreases s.len() - i,
{
    match at(s, i) {
        None => {},
        Some(c) => {
            if is_bare_control(c) {
            } else if c == '"' {
            } else if c == '\\' {
                match escape_at(s, i + 1) {
                    (Some(e), p) => {
                        if p > i {
                            lemma_string_body_bounds(s, p, acc.push(e));
                        }
                    },
                    (None, p) => {},
                }
            } else {
                lemma_string_body_bounds(s, i + 1, acc.push(c));
            }
        },
    }
}

/// Reading a value or the elements of an array never moves backwards nor
/// past the end of the input. So the tests of the position that the
/// definitions of [`value_at`] and [`array_items`] make before they go on
/// never fail.
pub proof fn lemma_value_at_bounds(s: Seq<char>, i: int)
    requires
        0 <= i <= s.len(),
    ensures
        i <= value_at(s, i).1 <= s.len(),
    decreases s.len() - i, 0nat,
{
    lemma_skip_blank_ge(s, i);
    let p = skip_blank(s, i);
    match at(s, p) {
        None => {},
        Some(c) => {
            if c == '-' {
                lemma_run_len_bound(s, p + 1);
                let q = digits_at(s, p + 1).2;
                if q < s.len() {
                    lemma_run_len_bound(s, q + 1);
                }
            } else if '0' <= c <= '9' {
                lemma_run_len_bound(s, p);
                let q = digits_at(s, p).2;
                if q < s.len() {
                    lemma_run_len_bound(s, q + 1);
                }
            } else if c == '[' {
                lemma_array_items_bounds(s, p + 1, Seq::empty());
            } else if c == '"' {
                lemma_string_body_bounds(s, p + 1, Seq::empty());
            }
        },
    }
}

/// See [`lemma_value_at_bounds`].
pub proof fn lemma_array_items_bounds(s: Seq<char>, i: int, acc: Seq<Tree>)
    requires
        0 <= i <= s.len(),
    ensures
        i <= array_items(s, i, acc).1 <= s.len(),
    decreases s.len() - i, 1nat,
{
    lemma_value_at_bounds(s, i);
    let (v, p) = value_at(s, i);
    lemma_skip_blank_ge(s, p);
    let q = skip_blank(s, p);
    lemma_skip_blank_ge(s, q);
    if v is Absent {
    } else if acc.len() > 0 && !acc[0].equiv(v) {
    } else if at(s, q) == Some(',') {
        lemma_array_items_bounds(s, q + 1, acc.push(v));
    }
}

/// Each header and each assignment takes at least one character, and none
/// reaches past the end of the input. So the test of the position that the
/// definition of [`run`] makes before it goes on never fails.
pub proof fn lemma_item_at_bounds(s: Seq<char>, i: int)
    requires
        0 <= i <= s.len(),
    ensures
        i <= item_at(s, i).1 <= s.len(),
        item_at(s, i).0 is Found ==> i < item_at(s, i).1,
{
    lemma_skip_blank_ge(s, i);
    let p = skip_blank(s, i);
    match at(s, p) {
        None => {},
        Some(c) => {
            if c == '[' {
                let start = if at(s, p + 1) == Some('[') {
                    p + 2
                } else {
                    p + 1
                };
                lemma_token_end_bounds(s, start, section_stops());
            } else {
                lemma_token_end_bounds(s, p, key_stops());
                let end = token_end(s, p, key_stops());
                lemma_skip_spaces_ge(s, end);
                let q = skip_spaces(s, end);
                if q < s.len() {
                    lemma_value_at_bounds(s, q + 1);
                }
            }
        },
    }
}

/// A document is read item by item: what follows an event that the
/// receiver took is the rest of the document, read from the position after
/// the event with the receiver's next state. The definition of [`run`] tests
/// the position before it goes on; the test never fails.
pub proof fn lemma_run_unfolds<V: Visitor>(s: Seq<char>, i: int, st: V::State)
    requires
        0 <= i <= s.len(),
    ensures
        i <= run::<V>(s, i, st).pos <= s.len(),
        run::<V>(s, i, st) == (match item_at(s, i).0 {
            Item::End => Outcome { complete: true, state: st, pos: item_at(s, i).1 },
            Item::Malformed => Outcome { complete: false, state: st, pos: item_at(s, i).1 },
            Item::Found(ev) => match V::step(st, ev) {
                None => Outcome { complete: false, state: st, pos: item_at(s, i).1 },
                Some(next) => run::<V>(s, item_at(s, i).1, next),
            },
        }),
    decreases s.len() - i,
{
    lemma_item_at_bounds(s, i);
    let (item, p) = item_at(s, i);
    match item {
        Item::Found(ev) => {
            match V::step(st, ev) {
                Some(next) => {
                    lemma_run_unfolds::<V>(s, p, next);
                },
                None => {},
            }
        },
        _ => {},
    }
}

/// An array is read element by element: after an opening bracket come the
/// elements, and after a comma the next one. The definitions of
/// [`value_at`] and [`array_items`] test the position before they go on; the
/// tests never fail.
pub proof fn lemma_array_unfolds(s: Seq<char>, i: int, acc: Seq<Tree>)
    requires
        0 <= i <= s.len(),
    ensures
        at(s, skip_blank(s, i)) == Some('[') ==> value_at(s, i) == array_items(
            s,
            skip_blank(s, i) + 1,
            Seq::empty(),
        ),
        ({
            let (v, p) = value_at(s, i);
            let q = skip_blank(s, p);
            !(v is Absent) && (acc.len() == 0 || acc[0].equiv(v)) && at(s, q) == Some(',')
                ==> array_items(s, i, acc) == array_items(s, q + 1, acc.push(v))
        }),
{
    lemma_skip_blank_ge(s, i);
    lemma_value_at_bounds(s, i);
    lemma_skip_blank_ge(s, value_at(s, i).1);
}

/// A string is read character by character: after an escape comes the rest
/// of the string. The definition of [`string_body`] tests the position before
/// it goes on; the test never fails.
pub proof fn lemma_string_unfolds(s: Seq<char>, i: int, acc: Seq<char>)
    requires
        0 <= i < s.len(),
        s[i] == '\\',
        escape_at(s, i + 1).0 is Some,
    ensures
        string_body(s, i, acc) == string_body(
            s,
            escape_at(s, i + 1).1,
            acc.push(escape_at(s, i + 1).0.unwrap()),
        ),
{
}

/// An element that starts and cannot be read to its end makes the array
/// `Absent`, whatever was read before it and whatever follows.
pub proof fn lemma_failed_element_fails_array(s: Seq<char>, i: int, acc: Seq<Tree>)
    requires
        value_at(s, i).0 is Absent,
        value_at(s, i).1 > skip_blank(s, i),
    ensures
        array_items(s, i, acc) == (Tree::Absent, value_at(s, i).1),
{
}

} // verus!
