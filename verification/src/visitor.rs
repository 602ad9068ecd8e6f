//! The events a document consists of, and the interface of their receiver.

use vstd::prelude::*;
use crate::value::{Tree, Value};

verus! {

/// One structural event of a document.
pub enum Event {
    /// A header `[name]`, or `[[name]]` where the flag is set.
    Section(Seq<char>, bool),
    /// An assignment `key = value`.
    Pair(Seq<char>, Tree),
}

/// A receiver of the events of a document.
///
/// What a receiver has accumulated is its `state`; `step` says which state
/// follows an event, or that the event is refused. A refused event leaves
/// the receiver as it was.
pub trait Visitor {
    type State;

    spec fn state(&self) -> Self::State;

    spec fn step(pre: Self::State, ev: Event) -> Option<Self::State>;

    /// Takes a section header; `false` refuses it.
    fn section(&mut self, name: String, is_array: bool) -> (ok: bool)
        ensures
            ok == (Self::step(old(self).state(), Event::Section(name@, is_array)) is Some),
            final(self).state() == (match Self::step(
                old(self).state(),
                Event::Section(name@, is_array),
            ) {
                Some(next) => next,
                None => old(self).state(),
            }),
    ;

    /// Takes an assignment; `false` refuses it.
    fn pair(&mut self, key: String, val: Value) -> (ok: bool)
        ensures
            ok == (Self::step(old(self).state(), Event::Pair(key@, val@)) is Some),
            final(self).state() == (match Self::step(old(self).state(), Event::Pair(key@, val@)) {
                Some(next) => next,
                None => old(self).state(),
            }),
    ;
}

} // verus!
