//! Decoding of a value tree into typed data, one read at a time.
//!
//! A [`Decoder`] holds the value that the next read is about. A read of a
//! sequence, a record or a mapping hands out a decoder for the parts, and
//! that decoder hands out one decoder for each part in turn.

use vstd::prelude::*;
use crate::builder::{find_key, Entries};
use crate::error::{Error, ErrorView};
use crate::value::{
    entries, find, lemma_view_array, lemma_view_table, trees, Decimal, Tree, Value,
};

verus! {

/// The sequence `s` from its last element to its first.
pub open spec fn backwards<A>(s: Seq<A>) -> Seq<A> {
    Seq::new(s.len(), |i: int| s[s.len() - 1 - i])
}

/// The parts that a decoder has still to hand out.
pub enum Cursor {
    /// There are no parts.
    Nothing,
    /// The elements of a sequence that were not read yet, in order.
    Elements(Seq<Tree>),
    /// The fields of a record that were not read yet.
    Fields(Entries),
    /// The entries of a mapping that were not read yet, in stored order.
    Pairs(Entries),
}

enum State {
    No,
    // The elements that are left, the next one last.
    Arr(Vec<Value>),
    Tab(Vec<(String, Value)>),
    // The entries that are left, the next one last.
    Rest(Vec<(String, Value)>),
}

/// Reads a value tree as typed data.
pub struct Decoder {
    value: Value,
    state: State,
}

/// The vector from its last element to its first.
fn reversed<T>(mut v: Vec<T>) -> (r: Vec<T>)
    ensures
        r@ == backwards(v@),
{
    let ghost all = v@;
    let mut r: Vec<T> = Vec::new();
    while v.len() > 0
        invariant
            v@ == all.subrange(0, v.len() as int),
            v.len() <= all.len(),
            r@ == backwards(all).subrange(0, all.len() - v.len()),
        decreases v.len(),
    {
        let x = v.pop().unwrap();
        r.push(x);
        assert(v@ =~= all.subrange(0, v.len() as int));
        assert(r@ =~= backwards(all).subrange(0, all.len() - v.len()));
    }
    assert(r@ =~= backwards(all));
    r
}

/// A `ParseError` becomes the error of the field `name`; any other error
/// stays.
pub fn field_error(e: Error, name: &str) -> (r: Error)
    ensures
        r@ == (match e@ {
            ErrorView::ParseError => ErrorView::ParseErrorInField(name@),
            other => other,
        }),
{
    match e {
        Error::ParseError => Error::ParseErrorInField(name.to_owned()),
        other => other,
    }
}

impl Decoder {
    /// The value that the next read is about.
    pub closed spec fn value(&self) -> Tree {
        self.value@
    }

    /// The parts that are left to hand out.
    pub closed spec fn cursor(&self) -> Cursor {
        match self.state {
            State::No => Cursor::Nothing,
            State::Arr(v) => Cursor::Elements(backwards(trees(v@))),
            State::Tab(t) => Cursor::Fields(entries(t@)),
            State::Rest(v) => Cursor::Pairs(backwards(entries(v@))),
        }
    }

    /// `self` is as `pre` was, but for its value, which is `Absent`.
    pub open spec fn emptied(&self, pre: Decoder) -> bool {
        self.value() == Tree::Absent && self.cursor() == pre.cursor()
    }

    /// A decoder for `value`.
    pub fn new(value: Value) -> (d: Decoder)
        ensures
            d.value() == value@,
            d.cursor() == Cursor::Nothing,
    {
        Decoder { value, state: State::No }
    }

    fn new_state(state: State) -> (d: Decoder)
        ensures
            d.value() == Tree::Absent,
            d.state == state,
    {
        Decoder { value: Value::NoValue, state }
    }

    /// Takes the value out and leaves `NoValue`.
    fn take(&mut self) -> (v: Value)
        ensures
            v@ == old(self).value(),
            v == old(self).value,
            final(self).emptied(*old(self)),
    {
        let mut v = Value::NoValue;
        std::mem::swap(&mut self.value, &mut v);
        v
    }

    /// There is no unit value to read.
    pub fn read_nil(&mut self) -> (r: Result<(), Error>)
        ensures
            r is Err && r->Err_0@ == ErrorView::ParseError,
            *final(self) == *old(self),
    {
        Err(Error::ParseError)
    }

    /// Enumerations are not read.
    pub fn read_enum(&mut self) -> (r: Result<(), Error>)
        ensures
            r is Err && r->Err_0@ == ErrorView::ParseError,
            *final(self) == *old(self),
    {
        Err(Error::ParseError)
    }

    /// The number of a non-negative integer.
    pub fn read_u64(&mut self) -> (r: Result<u64, Error>)
        ensures
            *final(self) == *old(self),
            match old(self).value() {
                Tree::PosInt(n) => r == Ok::<u64, Error>(n),
                _ => r is Err && r->Err_0@ == ErrorView::ParseError,
            },
    {
        match self.value {
            Value::PosInt(v) => Ok(v),
            _ => Err(Error::ParseError),
        }
    }

    /// The number of a non-negative integer that fits in `usize`.
    pub fn read_usize(&mut self) -> (r: Result<usize, Error>)
        ensures
            *final(self) == *old(self),
            match old(self).value() {
                Tree::PosInt(n) if n <= usize::MAX => r == Ok::<usize, Error>(n as usize),
                _ => r is Err && r->Err_0@ == ErrorView::ParseError,
            },
    {
        match self.value {
            Value::PosInt(v) => if v <= usize::MAX as u64 {
                Ok(v as usize)
            } else {
                Err(Error::ParseError)
            },
            _ => Err(Error::ParseError),
        }
    }

    /// The number of a non-negative integer that fits in 32 bits.
    pub fn read_u32(&mut self) -> (r: Result<u32, Error>)
        ensures
            *final(self) == *old(self),
            match old(self).value() {
                Tree::PosInt(n) if n <= u32::MAX => r == Ok::<u32, Error>(n as u32),
                _ => r is Err && r->Err_0@ == ErrorView::ParseError,
            },
    {
        match self.value {
            Value::PosInt(v) => if v <= 0xffff_ffff {
                Ok(v as u32)
            } else {
                Err(Error::ParseError)
            },
            _ => Err(Error::ParseError),
        }
    }

    /// The number of a non-negative integer that fits in 16 bits.
    pub fn read_u16(&mut self) -> (r: Result<u16, Error>)
        ensures
            *final(self) == *old(self),
            match old(self).value() {
                Tree::PosInt(n) if n <= u16::MAX => r == Ok::<u16, Error>(n as u16),
                _ => r is Err && r->Err_0@ == ErrorView::ParseError,
            },
    {
        match self.value {
            Value::PosInt(v) => if v <= 0xffff {
                Ok(v as u16)
            } else {
                Err(Error::ParseError)
            },
            _ => Err(Error::ParseError),
        }
    }

    /// The number of a non-negative integer that fits in 8 bits.
    pub fn read_u8(&mut self) -> (r: Result<u8, Error>)
        ensures
            *final(self) == *old(self),
            match old(self).value() {
                Tree::PosInt(n) if n <= u8::MAX => r == Ok::<u8, Error>(n as u8),
                _ => r is Err && r->Err_0@ == ErrorView::ParseError,
            },
    {
        match self.value {
            Value::PosInt(v) => if v <= 0xff {
                Ok(v as u8)
            } else {
                Err(Error::ParseError)
            },
            _ => Err(Error::ParseError),
        }
    }

    /// The signed number of an integer that lies in the range of `i64`.
    pub fn read_i64(&mut self) -> (r: Result<i64, Error>)
        ensures
            *final(self) == *old(self),
            match old(self).value().as_int() {
                Some(n) => r == Ok::<i64, Error>(n),
                None => r is Err && r->Err_0@ == ErrorView::ParseError,
            },
    {
        match self.value.get_int() {
            Some(n) => Ok(n),
            None => Err(Error::ParseError),
        }
    }

    /// The signed number of an integer that fits in `isize`.
    pub fn read_isize(&mut self) -> (r: Result<isize, Error>)
        ensures
            *final(self) == *old(self),
            match old(self).value().as_int() {
                Some(n) if isize::MIN <= n <= isize::MAX => r == Ok::<isize, Error>(n as isize),
                _ => r is Err && r->Err_0@ == ErrorView::ParseError,
            },
    {
        match self.value.get_int() {
            Some(n) => if isize::MIN as i64 <= n && n <= isize::MAX as i64 {
                Ok(n as isize)
            } else {
                Err(Error::ParseError)
            },
            None => Err(Error::ParseError),
        }
    }

    /// The signed number of an integer that fits in 32 bits.
    pub fn read_i32(&mut self) -> (r: Result<i32, Error>)
        ensures
            *final(self) == *old(self),
            match old(self).value().as_int() {
                Some(n) if i32::MIN <= n <= i32::MAX => r == Ok::<i32, Error>(n as i32),
                _ => r is Err && r->Err_0@ == ErrorView::ParseError,
            },
    {
        match self.value.get_int() {
            Some(n) => if -0x8000_0000 <= n && n <= 0x7fff_ffff {
                Ok(n as i32)
            } else {
                Err(Error::ParseError)
            },
            None => Err(Error::ParseError),
        }
    }

    /// The signed number of an integer that fits in 16 bits.
    pub fn read_i16(&mut self) -> (r: Result<i16, Error>)
        ensures
            *final(self) == *old(self),
            match old(self).value().as_int() {
                Some(n) if i16::MIN <= n <= i16::MAX => r == Ok::<i16, Error>(n as i16),
                _ => r is Err && r->Err_0@ == ErrorView::ParseError,
            },
    {
        match self.value.get_int() {
            Some(n) => if -0x8000 <= n && n <= 0x7fff {
                Ok(n as i16)
            } else {
                Err(Error::ParseError)
            },
            None => Err(Error::ParseError),
        }
    }

    /// The signed number of an integer that fits in 8 bits.
    pub fn read_i8(&mut self) -> (r: Result<i8, Error>)
        ensures
            *final(self) == *old(self),
            match old(self).value().as_int() {
                Some(n) if i8::MIN <= n <= i8::MAX => r == Ok::<i8, Error>(n as i8),
                _ => r is Err && r->Err_0@ == ErrorView::ParseError,
            },
    {
        match self.value.get_int() {
            Some(n) => if -0x80 <= n && n <= 0x7f {
                Ok(n as i8)
            } else {
                Err(Error::ParseError)
            },
            None => Err(Error::ParseError),
        }
    }

    /// The truth value of a boolean.
    pub fn read_bool(&mut self) -> (r: Result<bool, Error>)
        ensures
            *final(self) == *old(self),
            match old(self).value() {
                Tree::Bool(b) => r == Ok::<bool, Error>(b),
                _ => r is Err && r->Err_0@ == ErrorView::ParseError,
            },
    {
        match self.value {
            Value::Boolean(b) => Ok(b),
            _ => Err(Error::ParseError),
        }
    }

    /// The literal of a float.
    pub fn read_float(&mut self) -> (r: Result<Decimal, Error>)
        ensures
            *final(self) == *old(self),
            match old(self).value() {
                Tree::Float(d) => r is Ok && r.unwrap()@ == d,
                _ => r is Err && r->Err_0@ == ErrorView::ParseError,
            },
    {
        match &self.value {
            Value::Float(d) => Ok(d.clone()),
            _ => Err(Error::ParseError),
        }
    }

    /// The characters of a string. The value is taken out, whatever it is.
    pub fn read_str(&mut self) -> (r: Result<String, Error>)
        ensures
            final(self).emptied(*old(self)),
            match old(self).value() {
                Tree::String(s) => r is Ok && r.unwrap()@ == s,
                _ => r is Err && r->Err_0@ == ErrorView::ParseError,
            },
    {
        match self.take() {
            Value::String(s) => Ok(s),
            _ => Err(Error::ParseError),
        }
    }

    /// The character of a string of one character. The value is taken out,
    /// whatever it is.
    pub fn read_char(&mut self) -> (r: Result<char, Error>)
        ensures
            final(self).emptied(*old(self)),
            match old(self).value() {
                Tree::String(s) if s.len() == 1 => r == Ok::<char, Error>(s[0]),
                _ => r is Err && r->Err_0@ == ErrorView::ParseError,
            },
    {
        match self.read_str() {
            Err(e) => Err(e),
            Ok(s) => {
                let chars = crate::text::chars_of(s.as_str());
                if chars.len() == 1 {
                    Ok(chars[0])
                } else {
                    Err(Error::ParseError)
                }
            },
        }
    }

    /// Whether there is a value: `false` where it is `NoValue`.
    pub fn read_option(&self) -> (present: bool)
        ensures
            present == !(self.value() is Absent),
    {
        match self.value {
            Value::NoValue => false,
            _ => true,
        }
    }

    /// A decoder for the elements of an array or a table array, and their
    /// number. The value is taken out, whatever it is.
    pub fn read_seq(&mut self) -> (r: Result<(Decoder, usize), Error>)
        ensures
            final(self).emptied(*old(self)),
            match old(self).value() {
                Tree::Array(a) => r is Ok && r.unwrap().0.value() == Tree::Absent
                    && r.unwrap().0.cursor() == Cursor::Elements(a) && r.unwrap().1 == a.len(),
                Tree::TableArray(a) => r is Ok && r.unwrap().0.value() == Tree::Absent
                    && r.unwrap().0.cursor() == Cursor::Elements(a) && r.unwrap().1 == a.len(),
                _ => r is Err && r->Err_0@ == ErrorView::ParseError,
            },
    {
        match self.take() {
            Value::Array(a) => {
                proof {
                    lemma_view_array(a);
                }
                Ok(Self::elements(a))
            },
            Value::TableArray(a) => {
                proof {
                    lemma_view_array(a);
                }
                Ok(Self::elements(a))
            },
            _ => Err(Error::ParseError),
        }
    }

    fn elements(a: Vec<Value>) -> (r: (Decoder, usize))
        ensures
            r.0.value() == Tree::Absent,
            r.0.cursor() == Cursor::Elements(trees(a@)),
            r.1 == a.len(),
    {
        let n = a.len();
        let rev = reversed(a);
        assert(backwards(trees(rev@)) =~= trees(a@));
        (Self::new_state(State::Arr(rev)), n)
    }

    /// A decoder for the next element of the sequence. There is none where
    /// all elements were read, or the decoder is not one for a sequence.
    pub fn read_seq_elt(&mut self) -> (r: Result<Decoder, Error>)
        ensures
            final(self).value() == old(self).value(),
            match old(self).cursor() {
                Cursor::Elements(a) if a.len() > 0 => r is Ok && r.unwrap().value() == a[0]
                    && r.unwrap().cursor() == Cursor::Nothing && final(self).cursor()
                    == Cursor::Elements(a.drop_first()),
                _ => r is Err && r->Err_0@ == ErrorView::ParseError && final(self).cursor()
                    == old(self).cursor(),
            },
    {
        match &mut self.state {
            State::Arr(a) => {
                let ghost before = a@;
                match a.pop() {
                    Some(v) => {
                        assert(backwards(trees(a@)) =~= backwards(trees(before)).drop_first());
                        Ok(Decoder::new(v))
                    },
                    None => Err(Error::ParseError),
                }
            },
            _ => Err(Error::ParseError),
        }
    }

    /// A decoder for the fields of a table. The value is taken out, whatever
    /// it is.
    pub fn read_struct(&mut self) -> (r: Result<Decoder, Error>)
        ensures
            final(self).emptied(*old(self)),
            match old(self).value() {
                Tree::Table(_, t) => r is Ok && r.unwrap().value() == Tree::Absent
                    && r.unwrap().cursor() == Cursor::Fields(t),
                _ => r is Err && r->Err_0@ == ErrorView::ParseError,
            },
    {
        match self.take() {
            Value::Table(opened, t) => {
                proof {
                    lemma_view_table(opened, t);
                }
                Ok(Self::new_state(State::Tab(t)))
            },
            _ => Err(Error::ParseError),
        }
    }

    /// A decoder for the field `name` of the record, which is taken out of
    /// the fields that are left; where no field has that name, a decoder for
    /// `NoValue`. Where the decoder is not one for a record, the error of the
    /// field.
    pub fn read_struct_field(&mut self, name: &str) -> (r: Result<Decoder, Error>)
        ensures
            final(self).value() == old(self).value(),
            match old(self).cursor() {
                Cursor::Fields(t) => r is Ok && r.unwrap().cursor() == Cursor::Nothing
                    && match find(t, name@) {
                    Some(i) => r.unwrap().value() == t[i].1 && final(self).cursor()
                        == Cursor::Fields(t.remove(i)),
                    None => r.unwrap().value() == Tree::Absent && final(self).cursor()
                        == old(self).cursor(),
                },
                _ => r is Err && r->Err_0@ == ErrorView::ParseErrorInField(name@)
                    && final(self).cursor() == old(self).cursor(),
            },
    {
        match &mut self.state {
            State::Tab(tab) => {
                let key = name.to_owned();
                let ghost before = tab@;
                match find_key(tab, &key) {
                    Some(i) => {
                        let entry = tab.remove(i);
                        assert(entries(tab@) =~= entries(before).remove(i as int));
                        Ok(Decoder::new(entry.1))
                    },
                    None => Ok(Decoder::new(Value::NoValue)),
                }
            },
            _ => Err(Error::ParseErrorInField(name.to_owned())),
        }
    }

    /// A decoder for the entries of a table, and their number. The value is
    /// taken out, whatever it is.
    pub fn read_map(&mut self) -> (r: Result<(Decoder, usize), Error>)
        ensures
            final(self).emptied(*old(self)),
            match old(self).value() {
                Tree::Table(_, t) => r is Ok && r.unwrap().0.value() == Tree::Absent
                    && r.unwrap().0.cursor() == Cursor::Pairs(t) && r.unwrap().1 == t.len(),
                _ => r is Err && r->Err_0@ == ErrorView::ParseError,
            },
    {
        match self.take() {
            Value::Table(opened, t) => {
                proof {
                    lemma_view_table(opened, t);
                }
                let n = t.len();
                let rev = reversed(t);
                assert(backwards(entries(rev@)) =~= entries(t@));
                Ok((Self::new_state(State::Rest(rev)), n))
            },
            _ => Err(Error::ParseError),
        }
    }

    /// Moves to the next entry of the mapping: gives a decoder for its key,
    /// as a string, and makes its value the value of this decoder. There is
    /// none where all entries were read, or the decoder is not one for a
    /// mapping.
    pub fn read_map_elt_key(&mut self) -> (r: Result<Decoder, Error>)
        ensures
            match old(self).cursor() {
                Cursor::Pairs(t) if t.len() > 0 => r is Ok && r.unwrap().value() == Tree::String(
                    t[0].0,
                ) && r.unwrap().cursor() == Cursor::Nothing && final(self).value() == t[0].1
                    && final(self).cursor() == Cursor::Pairs(t.drop_first()),
                _ => r is Err && r->Err_0@ == ErrorView::ParseError && final(self).value()
                    == old(self).value() && final(self).cursor() == old(self).cursor(),
            },
    {
        match &mut self.state {
            State::Rest(rest) => {
                let ghost before = rest@;
                match rest.pop() {
                    Some(entry) => {
                        assert(backwards(entries(rest@)) =~= backwards(
                            entries(before),
                        ).drop_first());
                        self.value = entry.1;
                        Ok(Decoder::new(Value::String(entry.0)))
                    },
                    None => Err(Error::ParseError),
                }
            },
            _ => Err(Error::ParseError),
        }
    }
}

} // verus!
