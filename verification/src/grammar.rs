//! The grammar, as functions on a sequence of characters and a position.
//!
//! Each function gives what is read from a position and the position that
//! follows what was consumed.

use vstd::prelude::*;
use crate::text::is_scalar_value;
use crate::value::{DecimalView, Tree};
use crate::visitor::{Event, Visitor};

verus! {

/// The character at position `i`, if the input reaches that far.
pub open spec fn at(s: Seq<char>, i: int) -> Option<char> {
    if 0 <= i < s.len() {
        Some(s[i])
    } else {
        None
    }
}

/// Space, tab, carriage return and line feed.
pub open spec fn is_space(c: char) -> bool {
    c == ' ' || c == '\t' || c == '\r' || c == '\n'
}

/// Number of line feeds among the first `n` characters.
pub open spec fn newlines(s: Seq<char>, n: int) -> nat
    decreases n,
{
    if n <= 0 || n > s.len() {
        0
    } else {
        newlines(s, n - 1) + if s[n - 1] == '\n' {
            1nat
        } else {
            0nat
        }
    }
}

/// The line of position `pos`, counted from one and held at `usize::MAX`.
pub open spec fn line_at(s: Seq<char>, pos: int) -> int {
    if 1 + newlines(s, pos) > usize::MAX {
        usize::MAX as int
    } else {
        1 + newlines(s, pos) as int
    }
}

/// The first position at or after `i` that holds no whitespace.
pub open spec fn skip_spaces(s: Seq<char>, i: int) -> int
    decreases s.len() - i,
{
    if 0 <= i < s.len() && is_space(s[i]) {
        skip_spaces(s, i + 1)
    } else {
        i
    }
}

/// The position after the first line feed at or after `i`, or the end.
pub open spec fn line_end(s: Seq<char>, i: int) -> int
    decreases s.len() - i,
{
    if 0 <= i < s.len() {
        if s[i] == '\n' {
            i + 1
        } else {
            line_end(s, i + 1)
        }
    } else {
        i
    }
}

pub proof fn lemma_line_end_bounds(s: Seq<char>, i: int)
    requires
        0 <= i <= s.len(),
    ensures
        i <= line_end(s, i) <= s.len(),
    decreases s.len() - i,
{
    if i < s.len() && s[i] != '\n' {
        lemma_line_end_bounds(s, i + 1);
    }
}

/// The first position at or after `i` that holds neither whitespace nor a
/// comment; a comment runs from `#` to the end of its line.
pub open spec fn skip_blank(s: Seq<char>, i: int) -> int
    decreases s.len() - i,
{
    if 0 <= i < s.len() {
        if is_space(s[i]) {
            skip_blank(s, i + 1)
        } else if s[i] == '#' {
            proof {
                lemma_line_end_bounds(s, i + 1);
            }
            skip_blank(s, line_end(s, i + 1))
        } else {
            i
        }
    } else {
        i
    }
}

/// The value of a character as a digit in base 36.
pub open spec fn digit_value(c: char) -> Option<u8> {
    if '0' <= c <= '9' {
        Some((c as int - '0' as int) as u8)
    } else if 'a' <= c <= 'z' {
        Some((c as int - 'a' as int + 10) as u8)
    } else if 'A' <= c <= 'Z' {
        Some((c as int - 'A' as int + 10) as u8)
    } else {
        None
    }
}

/// The value of a character as a digit in the given radix.
pub open spec fn digit(c: char, radix: u32) -> Option<u8> {
    match digit_value(c) {
        Some(d) => if (d as u32) < radix {
            Some(d)
        } else {
            None
        },
        None => None,
    }
}

/// The digit at position `i` in the given radix, and the position after it;
/// without a digit there the position stays.
pub open spec fn digit_at(s: Seq<char>, i: int, radix: u32) -> (Option<u8>, int) {
    match at(s, i) {
        Some(c) => match digit(c, radix) {
            Some(d) => (Some(d), i + 1),
            None => (None, i),
        },
        None => (None, i),
    }
}

/// Whether a decimal digit stands at position `i`.
pub open spec fn is_digit_at(s: Seq<char>, i: int) -> bool {
    digit_at(s, i, 10).0 is Some
}

/// The length of the run of decimal digits that starts at `i`.
pub open spec fn run_len(s: Seq<char>, i: int) -> nat
    decreases s.len() - i,
{
    if is_digit_at(s, i) {
        1 + run_len(s, i + 1)
    } else {
        0
    }
}

/// The number written by the decimal digits `s[i..j]`.
pub open spec fn decimal(s: Seq<char>, i: int, j: int) -> nat
    decreases j - i,
{
    if j <= i {
        0
    } else {
        decimal(s, i, j - 1) * 10 + digit_at(s, j - 1, 10).0.unwrap() as nat
    }
}

/// The run of decimal digits at `i`: its value where there is a digit and the
/// value fits in 64 bits, the number of digits, and the position after it.
pub open spec fn digits_at(s: Seq<char>, i: int) -> (Option<u64>, nat, int) {
    let n = run_len(s, i);
    let v = decimal(s, i, i + n);
    (
        if n > 0 && v <= u64::MAX {
            Some(v as u64)
        } else {
            None
        },
        n,
        i + n,
    )
}

/// The digits of the run at `i`, one number each.
pub open spec fn fraction_at(s: Seq<char>, i: int) -> Seq<u8> {
    Seq::new(run_len(s, i), |k: int| digit_at(s, i + k, 10).0.unwrap())
}

/// What follows the point of a float: at least one digit.
pub open spec fn float_rest(s: Seq<char>, i: int, whole: u64, negative: bool) -> (Tree, int) {
    if is_digit_at(s, i) {
        (
            Tree::Float(DecimalView { negative, whole, digits: fraction_at(s, i) }),
            i + run_len(s, i),
        )
    } else {
        (Tree::Absent, i)
    }
}

/// Two decimal digits as one number. Both digits are tried in turn, so one
/// digit alone is consumed.
pub open spec fn two_digits(s: Seq<char>, i: int) -> (Option<u8>, int) {
    let (d1, p1) = digit_at(s, i, 10);
    let (d2, p2) = digit_at(s, p1, 10);
    match (d1, d2) {
        (Some(a), Some(b)) => (Some((a * 10 + b) as u8), p2),
        _ => (None, p2),
    }
}

/// The bounds of the fields of a datetime. They are loose: hour 24 and
/// minute or second 60 pass, and each month may have 31 days.
pub open spec fn datetime_in_range(month: u8, day: u8, hour: u8, minute: u8, second: u8) -> bool {
    &&& 1 <= month <= 12
    &&& 1 <= day <= 31
    &&& hour <= 24
    &&& minute <= 60
    &&& second <= 60
}

/// What follows the year and its hyphen in a datetime: `MM-DDThh:mm:ssZ`.
pub open spec fn datetime_rest(s: Seq<char>, i: int, year: u64) -> (Tree, int) {
    let (month, p1) = two_digits(s, i);
    if month is None || at(s, p1) != Some('-') {
        (Tree::Absent, p1)
    } else {
        let (day, p2) = two_digits(s, p1 + 1);
        if day is None || at(s, p2) != Some('T') {
            (Tree::Absent, p2)
        } else {
            let (hour, p3) = two_digits(s, p2 + 1);
            if hour is None || at(s, p3) != Some(':') {
                (Tree::Absent, p3)
            } else {
                let (minute, p4) = two_digits(s, p3 + 1);
                if minute is None || at(s, p4) != Some(':') {
                    (Tree::Absent, p4)
                } else {
                    let (second, p5) = two_digits(s, p4 + 1);
                    if second is None || at(s, p5) != Some('Z') {
                        (Tree::Absent, p5)
                    } else if datetime_in_range(
                        month.unwrap(),
                        day.unwrap(),
                        hour.unwrap(),
                        minute.unwrap(),
                        second.unwrap(),
                    ) {
                        (
                            Tree::Datetime(
                                year as u16,
                                month.unwrap(),
                                day.unwrap(),
                                hour.unwrap(),
                                minute.unwrap(),
                                second.unwrap(),
                            ),
                            p5 + 1,
                        )
                    } else {
                        (Tree::Absent, p5 + 1)
                    }
                }
            }
        }
    }
}

/// A number that starts with a digit at `i`: an integer, a float where a
/// point follows, a datetime where a hyphen follows four digits.
pub open spec fn number_at(s: Seq<char>, i: int) -> (Tree, int) {
    let (value, ndigits, p) = digits_at(s, i);
    match value {
        None => (Tree::Absent, p),
        Some(n) => if at(s, p) == Some('.') {
            float_rest(s, p + 1, n, false)
        } else if at(s, p) == Some('-') {
            if ndigits != 4 {
                (Tree::Absent, p)
            } else {
                datetime_rest(s, p + 1, n)
            }
        } else {
            (Tree::PosInt(n), p)
        },
    }
}

/// A number that starts with a minus sign at `i`.
pub open spec fn negative_at(s: Seq<char>, i: int) -> (Tree, int) {
    let (value, _ndigits, p) = digits_at(s, i + 1);
    match value {
        None => (Tree::Absent, p),
        Some(n) => if at(s, p) == Some('.') {
            float_rest(s, p + 1, n, true)
        } else {
            (Tree::NegInt(n), p)
        },
    }
}

/// The word `true`, whose `t` stands at `i`.
pub open spec fn true_at(s: Seq<char>, i: int) -> (Tree, int) {
    if at(s, i + 1) != Some('r') {
        (Tree::Absent, i + 1)
    } else if at(s, i + 2) != Some('u') {
        (Tree::Absent, i + 2)
    } else if at(s, i + 3) != Some('e') {
        (Tree::Absent, i + 3)
    } else {
        (Tree::Bool(true), i + 4)
    }
}

/// The word `false`, whose `f` stands at `i`.
pub open spec fn false_at(s: Seq<char>, i: int) -> (Tree, int) {
    if at(s, i + 1) != Some('a') {
        (Tree::Absent, i + 1)
    } else if at(s, i + 2) != Some('l') {
        (Tree::Absent, i + 2)
    } else if at(s, i + 3) != Some('s') {
        (Tree::Absent, i + 3)
    } else if at(s, i + 4) != Some('e') {
        (Tree::Absent, i + 4)
    } else {
        (Tree::Bool(false), i + 5)
    }
}

/// Four hexadecimal digits as one character. The four digits are tried in
/// turn, each consumed where it is one.
pub open spec fn hex4_at(s: Seq<char>, i: int) -> (Option<char>, int) {
    let (d1, p1) = digit_at(s, i, 16);
    let (d2, p2) = digit_at(s, p1, 16);
    let (d3, p3) = digit_at(s, p2, 16);
    let (d4, p4) = digit_at(s, p3, 16);
    match (d1, d2, d3, d4) {
        (Some(a), Some(b), Some(c), Some(d)) => {
            let code = (a * 4096 + b * 256 + c * 16 + d) as u32;
            if is_scalar_value(code) {
                (Some(code as char), p4)
            } else {
                (None, p4)
            }
        },
        _ => (None, p4),
    }
}

/// The character that an escape stands for; `i` is the position after the
/// backslash.
pub open spec fn escape_at(s: Seq<char>, i: int) -> (Option<char>, int) {
    match at(s, i) {
        None => (None, i),
        Some(c) => if c == 'b' {
            (Some('\u{8}'), i + 1)
        } else if c == 't' {
            (Some('\t'), i + 1)
        } else if c == 'n' {
            (Some('\n'), i + 1)
        } else if c == 'f' {
            (Some('\u{c}'), i + 1)
        } else if c == 'r' {
            (Some('\r'), i + 1)
        } else if c == '"' {
            (Some('"'), i + 1)
        } else if c == '/' {
            (Some('/'), i + 1)
        } else if c == '\\' {
            (Some('\\'), i + 1)
        } else if c == 'u' {
            hex4_at(s, i + 1)
        } else {
            (None, i)
        },
    }
}

/// The characters that may not stand unescaped inside a quoted string.
pub open spec fn is_bare_control(c: char) -> bool {
    c == '\r' || c == '\n' || c == '\u{c}' || c == '\u{8}'
}

/// The rest of a quoted string from position `i`, after the characters `acc`.
pub open spec fn string_body(s: Seq<char>, i: int, acc: Seq<char>) -> (Option<Seq<char>>, int)
    decreases s.len() - i,
{
    match at(s, i) {
        None => (None, i),
        Some(c) => if is_bare_control(c) {
            (None, i)
        } else if c == '"' {
            (Some(acc), i + 1)
        } else if c == '\\' {
            match escape_at(s, i + 1) {
                (Some(e), p) => if p > i {
                    string_body(s, p, acc.push(e))
                } else {
                    (None, p)
                },
                (None, p) => (None, p),
            }
        } else {
            string_body(s, i + 1, acc.push(c))
        },
    }
}

/// A quoted string at `i`.
pub open spec fn string_at(s: Seq<char>, i: int) -> (Option<Seq<char>>, int) {
    if at(s, i) == Some('"') {
        string_body(s, i + 1, Seq::empty())
    } else {
        (None, i)
    }
}

/// The end of an array from position `i`, after the elements `acc`: blanks
/// and the closing bracket.
pub open spec fn array_close(s: Seq<char>, i: int, acc: Seq<Tree>) -> (Tree, int) {
    let p = skip_blank(s, i);
    if at(s, p) == Some(']') {
        (Tree::Array(acc), p + 1)
    } else {
        (Tree::Absent, p)
    }
}

/// The value at `i`, after blanks. `Absent` says that no value could be read.
pub open spec fn value_at(s: Seq<char>, i: int) -> (Tree, int)
    decreases s.len() - i, 0nat,
{
    let p = skip_blank(s, i);
    match at(s, p) {
        None => (Tree::Absent, p),
        Some(c) => if c == '-' {
            negative_at(s, p)
        } else if '0' <= c <= '9' {
            number_at(s, p)
        } else if c == 't' {
            true_at(s, p)
        } else if c == 'f' {
            false_at(s, p)
        } else if c == '[' {
            if p >= i {
                array_items(s, p + 1, Seq::empty())
            } else {
                (Tree::Absent, p)
            }
        } else if c == '"' {
            match string_at(s, p) {
                (Some(x), q) => (Tree::String(x), q),
                (None, q) => (Tree::Absent, q),
            }
        } else {
            (Tree::Absent, p)
        },
    }
}

/// The elements of an array from position `i`, after the elements `acc`.
/// The run of elements ends where nothing stands at the place of an element,
/// so that a comma may follow the last one, or where no comma follows an
/// element. An element that starts and cannot be read to its end makes the
/// array `Absent`, and so does an element of another kind than the first.
pub open spec fn array_items(s: Seq<char>, i: int, acc: Seq<Tree>) -> (Tree, int)
    decreases s.len() - i, 1nat,
{
    let (v, p) = value_at(s, i);
    if v is Absent {
        if p > skip_blank(s, i) {
            (Tree::Absent, p)
        } else {
            array_close(s, p, acc)
        }
    } else if acc.len() > 0 && !acc[0].equiv(v) {
        (Tree::Absent, p)
    } else {
        let q = skip_blank(s, p);
        if at(s, q) == Some(',') {
            if q >= i {
                array_items(s, q + 1, acc.push(v))
            } else {
                (Tree::Absent, q)
            }
        } else {
            array_close(s, q, acc.push(v))
        }
    }
}

/// The characters that end the name of a section.
pub open spec fn section_stops() -> Seq<char> {
    seq!['\t', '\n', '\r', '[', ']']
}

/// The characters that end a key.
pub open spec fn key_stops() -> Seq<char> {
    seq![' ', '\t', '\r', '\n', '=']
}

/// The first position at or after `i` that holds a character of `stops`, or
/// the end of the input.
pub open spec fn token_end(s: Seq<char>, i: int, stops: Seq<char>) -> int
    decreases s.len() - i,
{
    if 0 <= i < s.len() && !stops.contains(s[i]) {
        token_end(s, i + 1, stops)
    } else {
        i
    }
}

/// What stands at the top level of a document.
pub enum Item {
    /// The end of the input.
    End,
    /// Text that breaks the grammar.
    Malformed,
    /// A header or an assignment.
    Found(Event),
}

/// A section header whose opening bracket stands at `i`.
pub open spec fn section_at(s: Seq<char>, i: int) -> (Item, int) {
    let double = at(s, i + 1) == Some('[');
    let start = if double {
        i + 2
    } else {
        i + 1
    };
    let end = token_end(s, start, section_stops());
    let name = s.subrange(start, end);
    if name.len() == 0 {
        (Item::Malformed, end)
    } else if at(s, end) != Some(']') {
        (Item::Malformed, end)
    } else if !double {
        (Item::Found(Event::Section(name, false)), end + 1)
    } else if at(s, end + 1) != Some(']') {
        (Item::Malformed, end + 1)
    } else {
        (Item::Found(Event::Section(name, true)), end + 2)
    }
}

/// An assignment whose key starts at `i`.
pub open spec fn pair_at(s: Seq<char>, i: int) -> (Item, int) {
    let end = token_end(s, i, key_stops());
    let key = s.subrange(i, end);
    let p = skip_spaces(s, end);
    if at(s, p) != Some('=') {
        (Item::Malformed, p)
    } else {
        let (v, q) = value_at(s, p + 1);
        if v is Absent {
            (Item::Malformed, q)
        } else {
            (Item::Found(Event::Pair(key, v)), q)
        }
    }
}

/// The next item of a document from position `i`, after blanks.
pub open spec fn item_at(s: Seq<char>, i: int) -> (Item, int) {
    let p = skip_blank(s, i);
    match at(s, p) {
        None => (Item::End, p),
        Some(c) => if c == '[' {
            section_at(s, p)
        } else {
            pair_at(s, p)
        },
    }
}

/// How the reading of a document ended.
pub struct Outcome<S> {
    /// The end of the input was reached and no event was refused.
    pub complete: bool,
    /// The receiver's state after the last event it took.
    pub state: S,
    /// The position reached.
    pub pos: int,
}

/// Reads a document from position `i` and hands its events to a receiver
/// whose state is `st`, up to the end of the input, the first malformed item
/// or the first event the receiver refuses.
pub open spec fn run<V: Visitor>(s: Seq<char>, i: int, st: V::State) -> Outcome<V::State>
    decreases s.len() - i,
{
    let (item, p) = item_at(s, i);
    match item {
        Item::End => Outcome { complete: true, state: st, pos: p },
        Item::Malformed => Outcome { complete: false, state: st, pos: p },
        Item::Found(ev) => match V::step(st, ev) {
            None => Outcome { complete: false, state: st, pos: p },
            Some(next) => if i < p <= s.len() {
                run::<V>(s, p, next)
            } else {
                Outcome { complete: false, state: next, pos: p }
            },
        },
    }
}

} // verus!
