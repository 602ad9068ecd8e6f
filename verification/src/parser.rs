//! The scanner and the recursive-descent parser.

use vstd::prelude::*;
use crate::error::{Error, ErrorView};
use crate::grammar::{
    array_close, array_items, at, datetime_rest, decimal, digit, digit_at, digits_at, escape_at,
    false_at, float_rest, fraction_at, hex4_at, is_space, key_stops, lemma_line_end_bounds,
    line_at, line_end, negative_at, number_at, pair_at, run, run_len, section_at, section_stops,
    skip_blank, skip_spaces, string_at, string_body, token_end, true_at, two_digits, value_at,
    Item,
};
use crate::laws::lemma_value_at_wf;
use crate::text::text_of;
use crate::value::{have_equiv_types, lemma_view_array, trees, Decimal, Tree, Value};
use crate::visitor::{Event, Visitor};

verus! {

/// The value of `c` as a digit in the given radix.
pub fn digit_of(c: char, radix: u32) -> (r: Option<u8>)
    ensures
        r == digit(c, radix),
{
    let value: u32 = if c >= '0' && c <= '9' {
        c as u32 - '0' as u32
    } else if c >= 'a' && c <= 'z' {
        c as u32 - 'a' as u32 + 10
    } else if c >= 'A' && c <= 'Z' {
        c as u32 - 'A' as u32 + 10
    } else {
        return None;
    };
    if value < radix {
        Some(value as u8)
    } else {
        None
    }
}

/// A scanner over characters held in memory, with one character of
/// lookahead and a line counter, and the parser that drives it.
///
/// Where the source could not be read to its end, the characters are those
/// read before the fault, and the fault is kept apart: it tells the end of
/// such an input from a clean one.
pub struct Parser {
    input: Vec<char>,
    fault: Option<String>,
    pos: usize,
    line: usize,
}

impl Parser {
    /// The characters of the source.
    pub closed spec fn text(&self) -> Seq<char> {
        self.input@
    }

    /// The position of the current character.
    pub closed spec fn position(&self) -> int {
        self.pos as int
    }

    /// The fault that ended the source, if it did not end cleanly.
    pub closed spec fn fault(&self) -> Option<Seq<char>> {
        text_of(self.fault)
    }

    /// The position lies within the source and the line counter agrees with it.
    pub closed spec fn wf(&self) -> bool {
        &&& self.pos <= self.input.len()
        &&& self.line as int == line_at(self.input@, self.pos as int)
    }

    /// `self` is well formed, reads the source of `pre` and stands at `pos`.
    pub open spec fn moved(&self, pre: Parser, pos: int) -> bool {
        &&& self.wf()
        &&& self.text() == pre.text()
        &&& self.fault() == pre.fault()
        &&& self.position() == pos
    }

    /// A parser at the start of `input`. `fault` describes the read error that
    /// cut the source short, where there was one.
    pub fn new(input: Vec<char>, fault: Option<String>) -> (p: Parser)
        ensures
            p.wf(),
            p.text() == input@,
            p.position() == 0,
            p.fault() == text_of(fault),
    {
        Parser { input, fault, pos: 0, line: 1 }
    }

    /// Moves to the next character. At the end of the input nothing moves.
    pub fn advance(&mut self)
        requires
            old(self).wf(),
        ensures
            final(self).moved(
                *old(self),
                if old(self).position() < old(self).text().len() {
                    old(self).position() + 1
                } else {
                    old(self).position()
                },
            ),
    {
        if self.pos < self.input.len() {
            if self.input[self.pos] == '\n' && self.line < usize::MAX {
                self.line = self.line + 1;
            }
            self.pos = self.pos + 1;
        }
    }

    /// The line of the current position, counted from one.
    pub fn get_line(&self) -> (line: usize)
        requires
            self.wf(),
        ensures
            line as int == line_at(self.text(), self.position()),
    {
        self.line
    }

    /// The current character; `None` at the end of the input.
    pub fn ch(&self) -> (c: Option<char>)
        requires
            self.wf(),
        ensures
            c == at(self.text(), self.position()),
    {
        if self.pos < self.input.len() {
            Some(self.input[self.pos])
        } else {
            None
        }
    }

    /// Whether the input is exhausted, by its end or by a fault.
    pub fn eos(&self) -> (b: bool)
        requires
            self.wf(),
        ensures
            b == (self.position() >= self.text().len()),
    {
        self.pos >= self.input.len()
    }

    /// The fault that exhausted the input; `None` before the end and at a
    /// clean end.
    pub fn to_err(&self) -> (e: Option<String>)
        requires
            self.wf(),
        ensures
            text_of(e) == (if self.position() < self.text().len() {
                None
            } else {
                self.fault()
            }),
    {
        if self.pos < self.input.len() {
            None
        } else {
            match &self.fault {
                Some(what) => Some(what.clone()),
                None => None,
            }
        }
    }

    /// Consumes the current character where it is `c`.
    pub fn advance_if(&mut self, c: char) -> (b: bool)
        requires
            old(self).wf(),
        ensures
            b == (at(old(self).text(), old(self).position()) == Some(c)),
            final(self).moved(
                *old(self),
                if b {
                    old(self).position() + 1
                } else {
                    old(self).position()
                },
            ),
    {
        match self.ch() {
            Some(ch) => {
                if ch == c {
                    self.advance();
                    true
                } else {
                    false
                }
            },
            None => false,
        }
    }

    /// Consumes the current character where it is a digit in the given radix,
    /// and gives its value.
    pub fn read_digit(&mut self, radix: u32) -> (d: Option<u8>)
        requires
            old(self).wf(),
        ensures
            d == digit_at(old(self).text(), old(self).position(), radix).0,
            final(self).moved(*old(self), digit_at(old(self).text(), old(self).position(), radix).1),
    {
        match self.ch() {
            None => None,
            Some(c) => {
                match digit_of(c, radix) {
                    Some(n) => {
                        self.advance();
                        Some(n)
                    },
                    None => None,
                }
            },
        }
    }

    /// Reads two decimal digits as one number.
    pub fn read_two_digits(&mut self) -> (d: Option<u8>)
        requires
            old(self).wf(),
        ensures
            d == two_digits(old(self).text(), old(self).position()).0,
            final(self).moved(*old(self), two_digits(old(self).text(), old(self).position()).1),
    {
        let d1 = self.read_digit(10);
        let d2 = self.read_digit(10);
        match (d1, d2) {
            (Some(d1), Some(d2)) => Some(d1 * 10 + d2),
            _ => None,
        }
    }

    /// Reads a run of decimal digits. Gives its value, or `None` where no
    /// digit stands or the value does not fit in 64 bits, and the number of
    /// digits consumed.
    pub fn read_digits(&mut self) -> (r: (Option<u64>, usize))
        requires
            old(self).wf(),
        ensures
            r.0 == digits_at(old(self).text(), old(self).position()).0,
            r.1 as nat == digits_at(old(self).text(), old(self).position()).1,
            final(self).moved(*old(self), digits_at(old(self).text(), old(self).position()).2),
    {
        let ghost s = self.text();
        let ghost start = self.position();
        let mut num: u64 = 0;
        let mut fits = true;
        let mut ndigits: usize = 0;
        loop
            invariant
                self.moved(*old(self), start + ndigits),
                s == old(self).text(),
                start == old(self).position(),
                start + ndigits <= s.len(),
                run_len(s, start) == ndigits + run_len(s, start + ndigits),
                fits ==> num as nat == decimal(s, start, start + ndigits),
                !fits ==> decimal(s, start, start + ndigits) > u64::MAX,
            ensures
                self.moved(*old(self), start + ndigits),
                run_len(s, start) == ndigits,
                fits ==> num as nat == decimal(s, start, start + ndigits),
                !fits ==> decimal(s, start, start + ndigits) > u64::MAX,
            decreases s.len() - start - ndigits,
        {
            match self.read_digit(10) {
                Some(n) => {
                    assert(decimal(s, start, start + ndigits + 1) == decimal(
                        s,
                        start,
                        start + ndigits,
                    ) * 10 + n as nat);
                    if fits && num <= (u64::MAX - n as u64) / 10 {
                        num = num * 10 + n as u64;
                    } else {
                        fits = false;
                    }
                    ndigits = ndigits + 1;
                },
                None => {
                    break ;
                },
            }
        }
        if ndigits > 0 && fits {
            (Some(num), ndigits)
        } else {
            (None, ndigits)
        }
    }

    /// Skips whitespace.
    pub fn skip_whitespaces(&mut self)
        requires
            old(self).wf(),
        ensures
            final(self).moved(*old(self), skip_spaces(old(self).text(), old(self).position())),
    {
        let ghost s = self.text();
        loop
            invariant
                self.wf(),
                self.text() == old(self).text(),
                self.fault() == old(self).fault(),
                s == old(self).text(),
                skip_spaces(s, self.position()) == skip_spaces(s, old(self).position()),
            ensures
                self.moved(*old(self), skip_spaces(s, old(self).position())),
            decreases s.len() - self.position(),
        {
            match self.ch() {
                Some(c) => {
                    if c == ' ' || c == '\t' || c == '\r' || c == '\n' {
                        self.advance();
                    } else {
                        break ;
                    }
                },
                None => {
                    break ;
                },
            }
        }
    }

    /// Skips a comment, whose `#` is the current character, up to and with
    /// the line feed that ends it.
    pub fn skip_comment(&mut self)
        requires
            old(self).wf(),
            at(old(self).text(), old(self).position()) == Some('#'),
        ensures
            final(self).moved(*old(self), line_end(old(self).text(), old(self).position() + 1)),
    {
        let ghost s = self.text();
        self.advance();
        loop
            invariant_except_break
                line_end(s, self.position()) == line_end(s, old(self).position() + 1),
            invariant
                self.wf(),
                self.text() == old(self).text(),
                self.fault() == old(self).fault(),
                s == old(self).text(),
            ensures
                self.moved(*old(self), line_end(s, old(self).position() + 1)),
            decreases s.len() - self.position(),
        {
            match self.ch() {
                Some(c) => {
                    self.advance();
                    if c == '\n' {
                        break ;
                    }
                },
                None => {
                    break ;
                },
            }
        }
    }

    /// Skips whitespace and comments.
    pub fn skip_whitespaces_and_comments(&mut self)
        requires
            old(self).wf(),
        ensures
            final(self).moved(*old(self), skip_blank(old(self).text(), old(self).position())),
    {
        let ghost s = self.text();
        loop
            invariant
                self.wf(),
                self.text() == old(self).text(),
                self.fault() == old(self).fault(),
                s == old(self).text(),
                skip_blank(s, self.position()) == skip_blank(s, old(self).position()),
            ensures
                self.moved(*old(self), skip_blank(s, old(self).position())),
            decreases s.len() - self.position(),
        {
            match self.ch() {
                Some(c) => {
                    if c == ' ' || c == '\t' || c == '\r' || c == '\n' {
                        self.advance();
                    } else if c == '#' {
                        let ghost before = self.position();
                        self.skip_comment();
                        proof {
                            lemma_line_end_bounds(s, before + 1);
                        }
                    } else {
                        break ;
                    }
                },
                None => {
                    break ;
                },
            }
        }
    }

    /// Reads the characters up to the first one of `stops`, or to the end.
    pub fn read_token(&mut self, stops: &[char]) -> (token: String)
        requires
            old(self).wf(),
        ensures
            final(self).moved(*old(self), token_end(old(self).text(), old(self).position(), stops@)),
            token@ == old(self).text().subrange(
                old(self).position(),
                token_end(old(self).text(), old(self).position(), stops@),
            ),
            old(self).position() <= final(self).position(),
    {
        let ghost s = self.text();
        let ghost start = self.position();
        let mut token = String::new();
        loop
            invariant
                self.wf(),
                self.text() == old(self).text(),
                self.fault() == old(self).fault(),
                s == old(self).text(),
                start == old(self).position(),
                start <= self.position() <= s.len(),
                token@ == s.subrange(start, self.position()),
                token_end(s, self.position(), stops@) == token_end(s, start, stops@),
            ensures
                self.moved(*old(self), token_end(s, start, stops@)),
                token@ == s.subrange(start, token_end(s, start, stops@)),
                start <= self.position(),
            decreases s.len() - self.position(),
        {
            match self.ch() {
                Some(c) => {
                    if Self::is_stop(c, stops) {
                        break ;
                    }
                    token.push(c);
                    self.advance();
                },
                None => {
                    break ;
                },
            }
        }
        token
    }

    fn is_stop(c: char, stops: &[char]) -> (b: bool)
        ensures
            b == stops@.contains(c),
    {
        let mut i: usize = 0;
        while i < stops.len()
            invariant
                i <= stops.len(),
                forall|k: int| 0 <= k < i ==> stops@[k] != c,
            decreases stops.len() - i,
        {
            if stops[i] == c {
                return true;
            }
            i = i + 1;
        }
        false
    }

    /// Reads the name of a section.
    pub fn parse_section_identifier(&mut self) -> (name: String)
        requires
            old(self).wf(),
        ensures
            final(self).moved(
                *old(self),
                token_end(old(self).text(), old(self).position(), section_stops()),
            ),
            name@ == old(self).text().subrange(
                old(self).position(),
                token_end(old(self).text(), old(self).position(), section_stops()),
            ),
            old(self).position() <= final(self).position(),
    {
        let stops = ['\t', '\n', '\r', '[', ']'];
        assert(stops@ =~= section_stops());
        self.read_token(&stops)
    }

    /// Reads a key.
    pub fn parse_key(&mut self) -> (key: String)
        requires
            old(self).wf(),
        ensures
            final(self).moved(
                *old(self),
                token_end(old(self).text(), old(self).position(), key_stops()),
            ),
            key@ == old(self).text().subrange(
                old(self).position(),
                token_end(old(self).text(), old(self).position(), key_stops()),
            ),
            old(self).position() <= final(self).position(),
    {
        let stops = [' ', '\t', '\r', '\n', '='];
        assert(stops@ =~= key_stops());
        self.read_token(&stops)
    }

    /// Reads four hexadecimal digits as one character.
    fn read_hex4(&mut self) -> (r: Option<char>)
        requires
            old(self).wf(),
        ensures
            r == hex4_at(old(self).text(), old(self).position()).0,
            final(self).moved(*old(self), hex4_at(old(self).text(), old(self).position()).1),
            old(self).position() <= final(self).position(),
    {
        let d1 = self.read_digit(16);
        let d2 = self.read_digit(16);
        let d3 = self.read_digit(16);
        let d4 = self.read_digit(16);
        match (d1, d2, d3, d4) {
            (Some(a), Some(b), Some(c), Some(d)) => {
                let code: u32 = a as u32 * 4096 + b as u32 * 256 + c as u32 * 16 + d as u32;
                char::from_u32(code)
            },
            _ => None,
        }
    }

    /// Reads what an escape stands for; the backslash is consumed already.
    fn read_escape(&mut self) -> (r: Option<char>)
        requires
            old(self).wf(),
        ensures
            r == escape_at(old(self).text(), old(self).position()).0,
            final(self).moved(*old(self), escape_at(old(self).text(), old(self).position()).1),
            old(self).position() <= final(self).position(),
            r is Some ==> old(self).position() < final(self).position(),
    {
        match self.ch() {
            None => None,
            Some(c) => {
                if c == 'b' {
                    self.advance();
                    Some('\u{8}')
                } else if c == 't' {
                    self.advance();
                    Some('\t')
                } else if c == 'n' {
                    self.advance();
                    Some('\n')
                } else if c == 'f' {
                    self.advance();
                    Some('\u{c}')
                } else if c == 'r' {
                    self.advance();
                    Some('\r')
                } else if c == '"' {
                    self.advance();
                    Some('"')
                } else if c == '/' {
                    self.advance();
                    Some('/')
                } else if c == '\\' {
                    self.advance();
                    Some('\\')
                } else if c == 'u' {
                    self.advance();
                    self.read_hex4()
                } else {
                    None
                }
            },
        }
    }

    /// Reads a quoted string, with its escapes resolved.
    pub fn parse_string(&mut self) -> (r: Option<String>)
        requires
            old(self).wf(),
        ensures
            text_of(r) == string_at(old(self).text(), old(self).position()).0,
            final(self).moved(*old(self), string_at(old(self).text(), old(self).position()).1),
            old(self).position() <= final(self).position(),
            r is Some ==> old(self).position() < final(self).position(),
    {
        let ghost s = self.text();
        let ghost start = self.position();
        if !self.advance_if('"') {
            return None;
        }
        let mut str = String::new();
        loop
            invariant
                self.wf(),
                self.text() == old(self).text(),
                self.fault() == old(self).fault(),
                s == old(self).text(),
                start == old(self).position(),
                start < self.position(),
                string_body(s, self.position(), str@) == string_at(s, start),
            decreases s.len() - self.position(),
        {
            match self.ch() {
                None => {
                    return None;
                },
                Some(c) => {
                    if c == '\r' || c == '\n' || c == '\u{c}' || c == '\u{8}' {
                        return None;
                    } else if c == '\\' {
                        self.advance();
                        match self.read_escape() {
                            Some(e) => {
                                str.push(e);
                            },
                            None => {
                                return None;
                            },
                        }
                    } else if c == '"' {
                        self.advance();
                        return Some(str);
                    } else {
                        str.push(c);
                        self.advance();
                    }
                },
            }
        }
    }

    /// Reads what follows the point of a float.
    pub fn parse_float_rest(&mut self, whole: u64, negative: bool) -> (v: Value)
        requires
            old(self).wf(),
        ensures
            v@ == float_rest(old(self).text(), old(self).position(), whole, negative).0,
            final(self).moved(
                *old(self),
                float_rest(old(self).text(), old(self).position(), whole, negative).1,
            ),
            old(self).position() <= final(self).position(),
    {
        let ghost s = self.text();
        let ghost start = self.position();
        let mut digits: Vec<u8> = Vec::new();
        loop
            invariant
                self.wf(),
                self.text() == old(self).text(),
                self.fault() == old(self).fault(),
                s == old(self).text(),
                start == old(self).position(),
                self.position() == start + digits.len(),
                run_len(s, start) == digits.len() + run_len(s, self.position()),
                forall|k: int|
                    0 <= k < digits.len() ==> digits@[k] == digit_at(s, start + k, 10).0.unwrap(),
            ensures
                self.moved(*old(self), start + digits.len()),
                run_len(s, start) == digits.len(),
                digits@ == fraction_at(s, start),
            decreases s.len() - self.position(),
        {
            match self.read_digit(10) {
                Some(n) => {
                    digits.push(n);
                },
                None => {
                    break ;
                },
            }
        }
        if digits.len() > 0 {
            Value::Float(Decimal { negative, whole, digits })
        } else {
            Value::NoValue
        }
    }

    /// Reads what follows the year and its hyphen in a datetime.
    fn parse_datetime_rest(&mut self, year: u64) -> (v: Value)
        requires
            old(self).wf(),
            year <= 9999,
        ensures
            v@ == datetime_rest(old(self).text(), old(self).position(), year).0,
            final(self).moved(*old(self), datetime_rest(old(self).text(), old(self).position(), year).1),
            old(self).position() <= final(self).position(),
    {
        let month = self.read_two_digits();
        if month.is_none() || !self.advance_if('-') {
            return Value::NoValue;
        }
        let day = self.read_two_digits();
        if day.is_none() || !self.advance_if('T') {
            return Value::NoValue;
        }
        let hour = self.read_two_digits();
        if hour.is_none() || !self.advance_if(':') {
            return Value::NoValue;
        }
        let min = self.read_two_digits();
        if min.is_none() || !self.advance_if(':') {
            return Value::NoValue;
        }
        let sec = self.read_two_digits();
        if sec.is_none() || !self.advance_if('Z') {
            return Value::NoValue;
        }
        match (month, day, hour, min, sec) {
            (Some(m), Some(d), Some(h), Some(min), Some(s)) => {
                if m > 0 && m <= 12 && d > 0 && d <= 31 && h <= 24 && min <= 60 && s <= 60 {
                    Value::Datetime(year as u16, m, d, h, min, s)
                } else {
                    Value::NoValue
                }
            },
            _ => Value::NoValue,
        }
    }

    /// Reads a number whose first digit is the current character.
    fn parse_number(&mut self) -> (v: Value)
        requires
            old(self).wf(),
            digit_at(old(self).text(), old(self).position(), 10).0 is Some,
        ensures
            v@ == number_at(old(self).text(), old(self).position()).0,
            final(self).moved(*old(self), number_at(old(self).text(), old(self).position()).1),
            old(self).position() < final(self).position(),
    {
        let ghost s = self.text();
        let ghost start = self.position();
        let (value, ndigits) = self.read_digits();
        match value {
            None => Value::NoValue,
            Some(n) => {
                match self.ch() {
                    Some('.') => {
                        self.advance();
                        self.parse_float_rest(n, false)
                    },
                    Some('-') => {
                        if ndigits != 4 {
                            return Value::NoValue;
                        }
                        self.advance();
                        proof {
                            assert forall|k: int| start <= k < start + 4 implies digit_at(
                                s,
                                k,
                                10,
                            ).0 is Some by {
                                lemma_run_holds_digits(s, start, k - start);
                            }
                            lemma_decimal_bound(s, start, start + 4);
                        }
                        self.parse_datetime_rest(n)
                    },
                    _ => Value::PosInt(n),
                }
            },
        }
    }

    /// Reads a number whose minus sign is the current character.
    fn parse_negative(&mut self) -> (v: Value)
        requires
            old(self).wf(),
            at(old(self).text(), old(self).position()) == Some('-'),
        ensures
            v@ == negative_at(old(self).text(), old(self).position()).0,
            final(self).moved(*old(self), negative_at(old(self).text(), old(self).position()).1),
            old(self).position() < final(self).position(),
    {
        self.advance();
        let (value, _ndigits) = self.read_digits();
        match value {
            None => Value::NoValue,
            Some(n) => {
                match self.ch() {
                    Some('.') => {
                        self.advance();
                        self.parse_float_rest(n, true)
                    },
                    _ => Value::NegInt(n),
                }
            },
        }
    }

    /// Reads the word `true`, whose `t` is the current character.
    fn parse_true(&mut self) -> (v: Value)
        requires
            old(self).wf(),
            at(old(self).text(), old(self).position()) == Some('t'),
        ensures
            v@ == true_at(old(self).text(), old(self).position()).0,
            final(self).moved(*old(self), true_at(old(self).text(), old(self).position()).1),
            old(self).position() < final(self).position(),
    {
        self.advance();
        if self.advance_if('r') && self.advance_if('u') && self.advance_if('e') {
            Value::Boolean(true)
        } else {
            Value::NoValue
        }
    }

    /// Reads the word `false`, whose `f` is the current character.
    fn parse_false(&mut self) -> (v: Value)
        requires
            old(self).wf(),
            at(old(self).text(), old(self).position()) == Some('f'),
        ensures
            v@ == false_at(old(self).text(), old(self).position()).0,
            final(self).moved(*old(self), false_at(old(self).text(), old(self).position()).1),
            old(self).position() < final(self).position(),
    {
        self.advance();
        if self.advance_if('a') && self.advance_if('l') && self.advance_if('s') && self.advance_if(
            'e',
        ) {
            Value::Boolean(false)
        } else {
            Value::NoValue
        }
    }

    /// Reads the closing bracket of an array, after blanks.
    fn parse_array_close(&mut self, arr: Vec<Value>) -> (v: Value)
        requires
            old(self).wf(),
        ensures
            v@ == array_close(old(self).text(), old(self).position(), trees(arr@)).0,
            final(self).moved(
                *old(self),
                array_close(old(self).text(), old(self).position(), trees(arr@)).1,
            ),
            old(self).position() <= final(self).position(),
    {
        let ghost start = self.position();
        self.skip_whitespaces_and_comments();
        proof {
            lemma_skip_blank_ge(old(self).text(), start);
        }
        if self.advance_if(']') {
            proof {
                lemma_view_array(arr);
            }
            Value::Array(arr)
        } else {
            Value::NoValue
        }
    }

    /// Reads the elements of an array and its closing bracket; the opening
    /// bracket is consumed already.
    fn parse_array_items(&mut self) -> (v: Value)
        requires
            old(self).wf(),
        ensures
            v@ == array_items(old(self).text(), old(self).position(), Seq::empty()).0,
            final(self).moved(
                *old(self),
                array_items(old(self).text(), old(self).position(), Seq::empty()).1,
            ),
            old(self).position() <= final(self).position(),
        decreases old(self).text().len() - old(self).position(), 3nat,
    {
        let ghost s = self.text();
        let ghost start = self.position();
        let mut arr: Vec<Value> = Vec::new();
        assert(trees(arr@) =~= Seq::<Tree>::empty());
        loop
            invariant
                self.wf(),
                self.text() == old(self).text(),
                self.fault() == old(self).fault(),
                s == old(self).text(),
                start == old(self).position(),
                start <= self.position() <= s.len(),
                array_items(s, self.position(), trees(arr@)) == array_items(s, start, Seq::empty()),
            decreases s.len() - self.position(),
        {
            let ghost acc = trees(arr@);
            let ghost here = self.position();
            self.skip_whitespaces_and_comments();
            let place = self.pos;
            proof {
                lemma_skip_blank_ge(s, here);
                lemma_value_at_after_blanks(s, here);
            }
            let val = self.parse_value();
            match val {
                Value::NoValue => {
                    if self.pos > place {
                        return Value::NoValue;
                    }
                    return self.parse_array_close(arr);
                },
                val => {
                    if arr.len() > 0 {
                        if !have_equiv_types(&arr[0], &val) {
                            return Value::NoValue;
                        }
                    }
                    arr.push(val);
                    assert(trees(arr@) =~= acc.push(val@));
                },
            }
            let ghost after = self.position();
            self.skip_whitespaces_and_comments();
            proof {
                lemma_skip_blank_ge(s, after);
                lemma_skip_blank_idempotent(s, after);
            }
            if !self.advance_if(',') {
                return self.parse_array_close(arr);
            }
        }
    }

    /// Reads a value, after whitespace and comments. `NoValue` says that no
    /// value could be read. A value that was read is a literal that is in
    /// order: the elements of an array are of one kind.
    pub fn parse_value(&mut self) -> (v: Value)
        requires
            old(self).wf(),
        ensures
            v@ == value_at(old(self).text(), old(self).position()).0,
            final(self).moved(*old(self), value_at(old(self).text(), old(self).position()).1),
            old(self).position() <= final(self).position(),
            !(v@ is Absent) ==> old(self).position() < final(self).position(),
            v@ is Absent || v@.is_literal(),
            v@.wf(),
        decreases old(self).text().len() - old(self).position(), 2nat,
    {
        let ghost s = self.text();
        let ghost start = self.position();
        proof {
            lemma_value_at_wf(s, start);
        }
        self.skip_whitespaces_and_comments();
        proof {
            lemma_skip_blank_ge(s, start);
        }
        match self.ch() {
            None => Value::NoValue,
            Some(c) => {
                if c == '-' {
                    self.parse_negative()
                } else if c >= '0' && c <= '9' {
                    self.parse_number()
                } else if c == 't' {
                    self.parse_true()
                } else if c == 'f' {
                    self.parse_false()
                } else if c == '[' {
                    self.advance();
                    self.parse_array_items()
                } else if c == '"' {
                    match self.parse_string() {
                        Some(str) => Value::String(str),
                        None => Value::NoValue,
                    }
                } else {
                    Value::NoValue
                }
            },
        }
    }

    /// Reads a section header, whose opening bracket is the current
    /// character.
    fn parse_section(&mut self) -> (r: Option<(String, bool)>)
        requires
            old(self).wf(),
            at(old(self).text(), old(self).position()) == Some('['),
        ensures
            final(self).moved(*old(self), section_at(old(self).text(), old(self).position()).1),
            old(self).position() < final(self).position(),
            match r {
                Some((name, double)) => section_at(old(self).text(), old(self).position()).0
                    == Item::Found(Event::Section(name@, double)),
                None => section_at(old(self).text(), old(self).position()).0 == Item::Malformed,
            },
    {
        self.advance();
        let mut double_section = false;
        match self.ch() {
            Some('[') => {
                double_section = true;
                self.advance();
            },
            _ => {},
        }
        let section_name = self.parse_section_identifier();
        if section_name.as_str().is_empty() {
            return None;
        }
        if !self.advance_if(']') {
            return None;
        }
        if double_section {
            if !self.advance_if(']') {
                return None;
            }
        }
        Some((section_name, double_section))
    }

    /// Reads an assignment, whose key starts at the current character.
    fn parse_pair(&mut self) -> (r: Option<(String, Value)>)
        requires
            old(self).wf(),
        ensures
            final(self).moved(*old(self), pair_at(old(self).text(), old(self).position()).1),
            old(self).position() <= final(self).position(),
            match r {
                Some((key, val)) => old(self).position() < final(self).position() && pair_at(
                    old(self).text(),
                    old(self).position(),
                ).0 == Item::Found(Event::Pair(key@, val@)),
                None => pair_at(old(self).text(), old(self).position()).0 == Item::Malformed,
            },
    {
        let ghost s = self.text();
        let ident = self.parse_key();
        let ghost end = self.position();
        self.skip_whitespaces();
        proof {
            lemma_skip_spaces_ge(s, end);
        }
        if !self.advance_if('=') {
            return None;
        }
        let val = self.parse_value();
        match val {
            Value::NoValue => None,
            val => Some((ident, val)),
        }
    }

    /// Reads a document and hands its events to `visitor`, up to the end of
    /// the input, the first malformed item or the first event that the
    /// visitor refuses.
    ///
    /// The result is `Ok` where the input was read to a clean end; it is
    /// `IOError` where it was read to an end that a fault made, and
    /// `ParseError` where reading stopped before the end.
    pub fn parse<V: Visitor>(&mut self, visitor: &mut V) -> (r: Result<(), Error>)
        requires
            old(self).wf(),
        ensures
            ({
                let out = run::<V>(
                    old(self).text(),
                    old(self).position(),
                    old(visitor).state(),
                );
                &&& final(self).moved(*old(self), out.pos)
                &&& final(visitor).state() == out.state
                &&& match r {
                    Ok(_) => out.complete && old(self).fault() is None,
                    Err(e) => if out.complete {
                        old(self).fault() is Some && e@ == ErrorView::IOError(
                            old(self).fault().unwrap(),
                        )
                    } else {
                        e@ == ErrorView::ParseError
                    },
                }
            }),
    {
        let ghost s = self.text();
        loop
            invariant
                self.wf(),
                self.text() == old(self).text(),
                self.fault() == old(self).fault(),
                s == old(self).text(),
                run::<V>(s, self.position(), visitor.state()) == run::<V>(
                    s,
                    old(self).position(),
                    old(visitor).state(),
                ),
            decreases s.len() - self.position(),
        {
            let ghost here = self.position();
            self.skip_whitespaces_and_comments();
            proof {
                lemma_skip_blank_ge(s, here);
            }
            match self.ch() {
                None => {
                    return match self.to_err() {
                        Some(what) => Err(Error::IOError(what)),
                        None => Ok(()),
                    };
                },
                Some(c) => {
                    if c == '[' {
                        match self.parse_section() {
                            None => {
                                return Err(Error::ParseError);
                            },
                            Some((name, double_section)) => {
                                if !visitor.section(name, double_section) {
                                    return Err(Error::ParseError);
                                }
                            },
                        }
                    } else {
                        match self.parse_pair() {
                            None => {
                                return Err(Error::ParseError);
                            },
                            Some((key, val)) => {
                                if !visitor.pair(key, val) {
                                    return Err(Error::ParseError);
                                }
                            },
                        }
                    }
                },
            }
        }
    }
}

/// Skipping whitespace never moves backwards nor past the end.
pub proof fn lemma_skip_spaces_ge(s: Seq<char>, i: int)
    requires
        0 <= i <= s.len(),
    ensures
        i <= skip_spaces(s, i) <= s.len(),
    decreases s.len() - i,
{
    if i < s.len() && is_space(s[i]) {
        lemma_skip_spaces_ge(s, i + 1);
    }
}

/// A run of at most nineteen digits writes a number below ten to the power
/// of its length; stated here for the lengths a datetime's year can have.
pub proof fn lemma_decimal_bound(s: Seq<char>, i: int, j: int)
    requires
        i <= j <= i + 4,
        forall|k: int| i <= k < j ==> digit_at(s, k, 10).0 is Some,
    ensures
        j - i == 0 ==> decimal(s, i, j) == 0,
        j - i == 1 ==> decimal(s, i, j) <= 9,
        j - i == 2 ==> decimal(s, i, j) <= 99,
        j - i == 3 ==> decimal(s, i, j) <= 999,
        j - i == 4 ==> decimal(s, i, j) <= 9999,
    decreases j - i,
{
    if j > i {
        lemma_decimal_bound(s, i, j - 1);
    }
}

/// Each position within a run of digits holds a digit.
pub proof fn lemma_run_holds_digits(s: Seq<char>, i: int, k: int)
    requires
        0 <= k < run_len(s, i),
    ensures
        digit_at(s, i + k, 10).0 is Some,
    decreases k,
{
    if k > 0 {
        lemma_run_holds_digits(s, i + 1, k - 1);
    }
}

/// Skipping blanks never moves backwards nor past the end.
pub proof fn lemma_skip_blank_ge(s: Seq<char>, i: int)
    requires
        0 <= i <= s.len(),
    ensures
        i <= skip_blank(s, i) <= s.len(),
    decreases s.len() - i,
{
    if i < s.len() {
        if is_space(s[i]) {
            lemma_skip_blank_ge(s, i + 1);
        } else if s[i] == '#' {
            lemma_line_end_bounds(s, i + 1);
            lemma_skip_blank_ge(s, line_end(s, i + 1));
        }
    }
}

/// A value is read from the first position after the blanks: to skip them
/// beforehand changes nothing.
pub proof fn lemma_value_at_after_blanks(s: Seq<char>, i: int)
    requires
        0 <= i <= s.len(),
    ensures
        value_at(s, skip_blank(s, i)) == value_at(s, i),
{
    lemma_skip_blank_ge(s, i);
    lemma_skip_blank_idempotent(s, i);
}

/// After blanks were skipped there are none to skip.
pub proof fn lemma_skip_blank_idempotent(s: Seq<char>, i: int)
    requires
        0 <= i <= s.len(),
    ensures
        skip_blank(s, skip_blank(s, i)) == skip_blank(s, i),
    decreases s.len() - i,
{
    if i < s.len() {
        if is_space(s[i]) {
            lemma_skip_blank_idempotent(s, i + 1);
        } else if s[i] == '#' {
            lemma_line_end_bounds(s, i + 1);
            lemma_skip_blank_idempotent(s, line_end(s, i + 1));
        }
    }
}

} // verus!
