//! The text of scalar values, and the proof that the grammar reads each
//! such text back as the value it was written for.

use vstd::prelude::*;
use crate::grammar::{
    at, datetime_in_range, datetime_rest, decimal, digit_at, digits_at, escape_at, false_at,
    float_rest, fraction_at, is_digit_at, negative_at, number_at, run_len, skip_blank, string_at,
    string_body, true_at, two_digits, value_at,
};
use crate::document::document;
use crate::error::ErrorView;
use crate::grammar::{is_space, item_at, key_stops, pair_at, skip_spaces, token_end, Item};
use crate::laws::lemma_single_assignment;
use crate::lookup::index_of;
use crate::value::{DecimalView, Tree};
use crate::visitor::Event;

verus! {

/// The character of a decimal digit.
pub open spec fn digit_char(d: int) -> char {
    (d + 48) as char
}

/// The decimal digits of `n`, without leading zeros.
pub open spec fn digits_of(n: nat) -> Seq<char>
    decreases n,
{
    if n < 10 {
        seq![digit_char(n as int)]
    } else {
        digits_of(n / 10).push(digit_char((n % 10) as int))
    }
}

/// The character of a digit reads as that digit.
pub proof fn lemma_digit_char(s: Seq<char>, i: int, d: int)
    requires
        0 <= d < 10,
        at(s, i) == Some(digit_char(d)),
    ensures
        digit_at(s, i, 10) == (Some(d as u8), i + 1),
        '0' <= s[i] <= '9',
{
}

/// A stretch of digits that no digit follows is a run of that length.
pub proof fn lemma_run_of(s: Seq<char>, i: int, k: int)
    requires
        0 <= k,
        forall|j: int| i <= j < i + k ==> is_digit_at(s, j),
        !is_digit_at(s, i + k),
    ensures
        run_len(s, i) == k,
    decreases k,
{
    if k > 0 {
        lemma_run_of(s, i + 1, k - 1);
    }
}

/// The digits of a number write that number.
pub proof fn lemma_digits_of(s: Seq<char>, i: int, n: nat)
    requires
        0 <= i,
        i + digits_of(n).len() <= s.len(),
        s.subrange(i, i + digits_of(n).len()) == digits_of(n),
    ensures
        decimal(s, i, i + digits_of(n).len()) == n,
        forall|j: int| i <= j < i + digits_of(n).len() ==> is_digit_at(s, j),
        digits_of(n).len() > 0,
    decreases n,
{
    let text = digits_of(n);
    let k = text.len() as int;
    if n < 10 {
        assert(text[0] == s[i]);
        lemma_digit_char(s, i, n as int);
        reveal_with_fuel(decimal, 2);
    } else {
        let head = digits_of(n / 10);
        assert(s.subrange(i, i + head.len()) =~= head) by {
            assert forall|j: int| 0 <= j < head.len() implies s.subrange(i, i + head.len())[j]
                == head[j] by {
                assert(text[j] == s.subrange(i, i + k)[j]);
            }
        }
        lemma_digits_of(s, i, n / 10);
        assert(text[k - 1] == s.subrange(i, i + k)[k - 1]);
        lemma_digit_char(s, i + k - 1, (n % 10) as int);
    }
}

/// A number that fits in 64 bits, written in digits that no digit follows,
/// is read as that number.
pub proof fn lemma_digits_read(s: Seq<char>, i: int, n: u64)
    requires
        0 <= i,
        i + digits_of(n as nat).len() <= s.len(),
        s.subrange(i, i + digits_of(n as nat).len()) == digits_of(n as nat),
        !is_digit_at(s, i + digits_of(n as nat).len()),
    ensures
        digits_at(s, i) == (Some(n), digits_of(n as nat).len(), i + digits_of(n as nat).len()),
        '0' <= s[i] <= '9',
{
    lemma_digits_of(s, i, n as nat);
    lemma_run_of(s, i, digits_of(n as nat).len() as int);
    assert(is_digit_at(s, i));
}

/// A number below a hundred in two digits.
pub open spec fn pad2(n: int) -> Seq<char> {
    seq![digit_char(n / 10), digit_char(n % 10)]
}

/// A number below ten thousand in four digits.
pub open spec fn pad4(n: int) -> Seq<char> {
    seq![
        digit_char(n / 1000),
        digit_char((n / 100) % 10),
        digit_char((n / 10) % 10),
        digit_char(n % 10),
    ]
}

/// The characters of the digits after the point.
pub open spec fn fraction_text(digits: Seq<u8>) -> Seq<char> {
    Seq::new(digits.len(), |i: int| digit_char(digits[i] as int))
}

/// A character as it stands inside a quoted string: the quote, the backslash
/// and the four characters that may not stand there are escaped.
pub open spec fn escaped(c: char) -> Seq<char> {
    if c == '"' {
        seq!['\\', '"']
    } else if c == '\\' {
        seq!['\\', '\\']
    } else if c == '\n' {
        seq!['\\', 'n']
    } else if c == '\r' {
        seq!['\\', 'r']
    } else if c == '\u{c}' {
        seq!['\\', 'f']
    } else if c == '\u{8}' {
        seq!['\\', 'b']
    } else {
        seq![c]
    }
}

/// The characters of a string as they stand between its quotes.
pub open spec fn escaped_text(x: Seq<char>) -> Seq<char>
    decreases x.len(),
{
    if x.len() == 0 {
        Seq::empty()
    } else {
        escaped(x[0]) + escaped_text(x.drop_first())
    }
}

/// The values that a scalar literal writes: a boolean, an integer, a float
/// with digits after its point, a string, and a datetime whose year has four
/// digits and whose other fields are in range.
pub open spec fn is_scalar(v: Tree) -> bool {
    match v {
        Tree::Bool(_) => true,
        Tree::PosInt(_) => true,
        Tree::NegInt(_) => true,
        Tree::Float(d) => d.wf(),
        Tree::String(_) => true,
        Tree::Datetime(year, month, day, hour, minute, second) => year <= 9999
            && datetime_in_range(month, day, hour, minute, second),
        _ => false,
    }
}

/// The literal of a scalar value.
pub open spec fn literal_text(v: Tree) -> Seq<char> {
    match v {
        Tree::Bool(b) => if b {
            seq!['t', 'r', 'u', 'e']
        } else {
            seq!['f', 'a', 'l', 's', 'e']
        },
        Tree::PosInt(n) => digits_of(n as nat),
        Tree::NegInt(n) => seq!['-'] + digits_of(n as nat),
        Tree::Float(d) => (if d.negative {
            seq!['-']
        } else {
            Seq::empty()
        }) + digits_of(d.whole as nat) + seq!['.'] + fraction_text(d.digits),
        Tree::String(x) => seq!['"'] + escaped_text(x) + seq!['"'],
        Tree::Datetime(year, month, day, hour, minute, second) => pad4(year as int) + seq!['-']
            + pad2(month as int) + seq!['-'] + pad2(day as int) + seq!['T'] + pad2(hour as int)
            + seq![':'] + pad2(minute as int) + seq![':'] + pad2(second as int) + seq!['Z'],
        _ => Seq::empty(),
    }
}

/// What `s` holds from position `i` to its end is `text`.
pub open spec fn ends_with(s: Seq<char>, i: int, text: Seq<char>) -> bool {
    &&& 0 <= i
    &&& i + text.len() == s.len()
    &&& forall|k: int| 0 <= k < text.len() ==> s[i + k] == #[trigger] text[k]
}

/// The digits of a number that ends the input, or that something other than
/// a digit follows, are read as that number.
proof fn lemma_number_text(s: Seq<char>, i: int, n: u64)
    requires
        0 <= i,
        i + digits_of(n as nat).len() <= s.len(),
        forall|k: int| 0 <= k < digits_of(n as nat).len() ==> s[i + k] == #[trigger] digits_of(
            n as nat,
        )[k],
        !is_digit_at(s, i + digits_of(n as nat).len()),
    ensures
        digits_at(s, i) == (Some(n), digits_of(n as nat).len(), i + digits_of(n as nat).len()),
        '0' <= s[i] <= '9',
        digits_of(n as nat).len() > 0,
{
    let text = digits_of(n as nat);
    assert(s.subrange(i, i + text.len()) =~= text);
    lemma_digits_read(s, i, n);
    lemma_digits_of(s, i, n as nat);
}

/// The digits after a point that end the input are read as they stand.
proof fn lemma_fraction_text(s: Seq<char>, i: int, whole: u64, negative: bool, digits: Seq<u8>)
    requires
        ends_with(s, i, fraction_text(digits)),
        (DecimalView { negative, whole, digits }).wf(),
    ensures
        float_rest(s, i, whole, negative) == (
            Tree::Float(DecimalView { negative, whole, digits }),
            s.len() as int,
        ),
{
    let text = fraction_text(digits);
    assert forall|j: int| i <= j < i + digits.len() implies is_digit_at(s, j) by {
        assert(s[j] == text[j - i]);
        assert(digits[j - i] < 10);
        lemma_digit_char(s, j, digits[j - i] as int);
    }
    lemma_run_of(s, i, digits.len() as int);
    assert(fraction_at(s, i) =~= digits) by {
        assert forall|k: int| 0 <= k < digits.len() implies fraction_at(s, i)[k] == digits[k] by {
            assert(s[i + k] == text[k]);
            assert(digits[k] < 10);
            lemma_digit_char(s, i + k, digits[k] as int);
        }
    }
    assert(is_digit_at(s, i));
}

/// Two digits are read as the number they write.
proof fn lemma_pad2(s: Seq<char>, i: int, n: u8)
    requires
        n <= 99,
        at(s, i) == Some(pad2(n as int)[0]),
        at(s, i + 1) == Some(pad2(n as int)[1]),
    ensures
        two_digits(s, i) == (Some(n), i + 2),
{
    lemma_digit_char(s, i, n as int / 10);
    lemma_digit_char(s, i + 1, n as int % 10);
}

/// The rest of a string that ends the input with its closing quote is read
/// as the characters that were escaped.
proof fn lemma_string_text(s: Seq<char>, i: int, acc: Seq<char>, x: Seq<char>)
    requires
        ends_with(s, i, escaped_text(x) + seq!['"']),
    ensures
        string_body(s, i, acc) == (Some(acc + x), s.len() as int),
    decreases x.len(),
{
    let text = escaped_text(x) + seq!['"'];
    if x.len() == 0 {
        assert(s[i] == text[0]);
        assert(acc + x =~= acc);
    } else {
        let c = x[0];
        let rest = x.drop_first();
        let tail = escaped_text(rest) + seq!['"'];
        let e = escaped(c);
        assert(text =~= e + tail);
        assert(s[i] == text[0]);
        assert(acc.push(c) + rest =~= acc + x);
        if e.len() == 2 {
            assert(s[i + 1] == text[1]);
            assert forall|k: int| 0 <= k < tail.len() implies s[i + 2 + k] == #[trigger] tail[k] by {
                assert(s[i + (k + 2)] == text[k + 2]);
            }
            lemma_string_text(s, i + 2, acc.push(c), rest);
        } else {
            assert forall|k: int| 0 <= k < tail.len() implies s[i + 1 + k] == #[trigger] tail[k] by {
                assert(s[i + (k + 1)] == text[k + 1]);
            }
            lemma_string_text(s, i + 1, acc.push(c), rest);
        }
    }
}

/// The words `true` and `false` are read as the booleans.
proof fn lemma_bool_reads(s: Seq<char>, from: int, i: int, v: Tree)
    requires
        skip_blank(s, from) == i,
        is_scalar(v),
        v is Bool,
        ends_with(s, i, literal_text(v)),
    ensures
        value_at(s, from) == (v, s.len() as int),
{
    let text = literal_text(v);
    match v {
        Tree::Bool(b) => {
            if b {
                assert(s[i] == text[0] && s[i + 1] == text[1] && s[i + 2] == text[2] && s[i + 3]
                    == text[3]);
            } else {
                assert(s[i] == text[0] && s[i + 1] == text[1] && s[i + 2] == text[2] && s[i + 3]
                    == text[3] && s[i + 4] == text[4]);
            }
        },
        _ => {},
    }
}

/// The digits of a number are read as a non-negative integer.
proof fn lemma_posint_reads(s: Seq<char>, from: int, i: int, v: Tree)
    requires
        skip_blank(s, from) == i,
        is_scalar(v),
        v is PosInt,
        ends_with(s, i, literal_text(v)),
    ensures
        value_at(s, from) == (v, s.len() as int),
{
    let text = literal_text(v);
    match v {
        Tree::PosInt(n) => {
            lemma_number_text(s, i, n);
        },
        _ => {},
    }
}

/// A minus sign and the digits of a number are read as a negative integer.
proof fn lemma_negint_reads(s: Seq<char>, from: int, i: int, v: Tree)
    requires
        skip_blank(s, from) == i,
        is_scalar(v),
        v is NegInt,
        ends_with(s, i, literal_text(v)),
    ensures
        value_at(s, from) == (v, s.len() as int),
{
    let text = literal_text(v);
    match v {
        Tree::NegInt(n) => {
            let digits = digits_of(n as nat);
            assert(s[i] == text[0]);
            assert forall|k: int| 0 <= k < digits.len() implies s[i + 1 + k] == #[trigger] digits[k] by {
                assert(s[i + (k + 1)] == text[k + 1]);
            }
            lemma_number_text(s, i + 1, n);
        },
        _ => {},
    }
}

/// A float is read back from its sign, its integer part, the point and
/// the digits after it.
proof fn lemma_float_reads(s: Seq<char>, from: int, i: int, v: Tree)
    requires
        skip_blank(s, from) == i,
        is_scalar(v),
        v is Float,
        ends_with(s, i, literal_text(v)),
    ensures
        value_at(s, from) == (v, s.len() as int),
{
    let text = literal_text(v);
    match v {
        Tree::Float(d) => {
            let sign: Seq<char> = if d.negative {
                seq!['-']
            } else {
                Seq::empty()
            };
            let whole = digits_of(d.whole as nat);
            let frac = fraction_text(d.digits);
            let start = i + sign.len();
            let point = start + whole.len();
            assert(text =~= sign + whole + seq!['.'] + frac);
            assert forall|k: int| 0 <= k < whole.len() implies s[start + k] == #[trigger] whole[k] by {
                assert(s[i + (k + sign.len())] == text[k + sign.len()]);
            }
            assert(s[point] == '.') by {
                assert(s[i + (sign.len() + whole.len())] == text[sign.len() + whole.len() as int]);
            }
            lemma_number_text(s, start, d.whole);
            assert(ends_with(s, point + 1, frac)) by {
                assert forall|k: int| 0 <= k < frac.len() implies s[point + 1 + k] == #[trigger] frac[k] by {
                    assert(s[i + (k + sign.len() + whole.len() + 1)] == text[k + sign.len()
                        + whole.len() + 1]);
                }
            }
            lemma_fraction_text(s, point + 1, d.whole, d.negative, d.digits);
            if d.negative {
                assert(s[i] == text[0]);
            }
        },
        _ => {},
    }
}

/// A string is read back from its escaped characters between quotes.
proof fn lemma_string_reads(s: Seq<char>, from: int, i: int, v: Tree)
    requires
        skip_blank(s, from) == i,
        is_scalar(v),
        v is String,
        ends_with(s, i, literal_text(v)),
    ensures
        value_at(s, from) == (v, s.len() as int),
{
    let text = literal_text(v);
    match v {
        Tree::String(x) => {
            let inner = escaped_text(x) + seq!['"'];
            assert(text =~= seq!['"'] + inner);
            assert(s[i] == text[0]);
            assert(ends_with(s, i + 1, inner)) by {
                assert forall|k: int| 0 <= k < inner.len() implies s[i + 1 + k] == #[trigger] inner[k] by {
                    assert(s[i + (k + 1)] == text[k + 1]);
                }
            }
            lemma_string_text(s, i + 1, Seq::empty(), x);
            assert(Seq::<char>::empty() + x =~= x);
        },
        _ => {},
    }
}

/// A datetime is read back from its fields.
proof fn lemma_datetime_reads(s: Seq<char>, from: int, i: int, v: Tree)
    requires
        skip_blank(s, from) == i,
        is_scalar(v),
        v is Datetime,
        ends_with(s, i, literal_text(v)),
    ensures
        value_at(s, from) == (v, s.len() as int),
{
    let text = literal_text(v);
    match v {
        Tree::Datetime(year, month, day, hour, minute, second) => {
            assert(text.len() == 20);
            assert forall|k: int| 0 <= k < 20 implies s[i + k] == text[k] by {}
            let y = year as int;
            assert(s[i] == text[0] && s[i + 1] == text[1] && s[i + 2] == text[2] && s[i + 3]
                == text[3] && s[i + 4] == text[4]);
            lemma_digit_char(s, i, y / 1000);
            lemma_digit_char(s, i + 1, (y / 100) % 10);
            lemma_digit_char(s, i + 2, (y / 10) % 10);
            lemma_digit_char(s, i + 3, y % 10);
            lemma_run_of(s, i, 4);
            assert(decimal(s, i, i + 4) == y) by {
                reveal_with_fuel(decimal, 5);
            }
            assert(s[i + 5] == text[5] && s[i + 6] == text[6] && s[i + 7] == text[7]);
            lemma_pad2(s, i + 5, month);
            assert(s[i + 8] == text[8] && s[i + 9] == text[9] && s[i + 10] == text[10]);
            lemma_pad2(s, i + 8, day);
            assert(s[i + 11] == text[11] && s[i + 12] == text[12] && s[i + 13] == text[13]);
            lemma_pad2(s, i + 11, hour);
            assert(s[i + 14] == text[14] && s[i + 15] == text[15] && s[i + 16] == text[16]);
            lemma_pad2(s, i + 14, minute);
            assert(s[i + 17] == text[17] && s[i + 18] == text[18] && s[i + 19] == text[19]);
            lemma_pad2(s, i + 17, second);
        },
        _ => {},
    }
}

/// Each scalar value is read back from its literal: where the input ends
/// with the literal of `v`, after blanks that start at `from`, the value read
/// from there is `v`, and reading stops at the end of the input.
pub proof fn lemma_literal_reads(s: Seq<char>, from: int, i: int, v: Tree)
    requires
        skip_blank(s, from) == i,
        is_scalar(v),
        ends_with(s, i, literal_text(v)),
    ensures
        value_at(s, from) == (v, s.len() as int),
{
    match v {
        Tree::Bool(_) => lemma_bool_reads(s, from, i, v),
        Tree::PosInt(_) => lemma_posint_reads(s, from, i, v),
        Tree::NegInt(_) => lemma_negint_reads(s, from, i, v),
        Tree::Float(_) => lemma_float_reads(s, from, i, v),
        Tree::String(_) => lemma_string_reads(s, from, i, v),
        Tree::Datetime(..) => lemma_datetime_reads(s, from, i, v),
        _ => {},
    }
}

/// A literal starts with a character that is neither blank nor the start of
/// a comment.
pub proof fn lemma_literal_start(v: Tree)
    requires
        is_scalar(v),
    ensures
        literal_text(v).len() > 0,
        !is_space(literal_text(v)[0]),
        literal_text(v)[0] != '#',
{
    match v {
        Tree::PosInt(n) => {
            lemma_digits_start(n as nat);
        },
        Tree::NegInt(n) => {},
        Tree::Float(d) => {
            lemma_digits_start(d.whole as nat);
            let sign: Seq<char> = if d.negative {
                seq!['-']
            } else {
                Seq::empty()
            };
            assert(literal_text(v)[0] == (sign + digits_of(d.whole as nat))[0]);
        },
        Tree::Datetime(year, ..) => {
            assert(literal_text(v)[0] == pad4(year as int)[0]);
        },
        _ => {},
    }
}

proof fn lemma_digits_start(n: nat)
    ensures
        digits_of(n).len() > 0,
        '0' <= digits_of(n)[0] <= '9',
    decreases n,
{
    if n >= 10 {
        lemma_digits_start(n / 10);
    }
}

/// A key that can start an assignment and that `lookup` finds in the root:
/// it is not empty, holds no whitespace, no equals sign and no dot, starts
/// with neither `[` nor `#`, and writes no index.
pub open spec fn is_plain_key(key: Seq<char>) -> bool {
    &&& key.len() > 0
    &&& key[0] != '['
    &&& key[0] != '#'
    &&& forall|k: int| 0 <= k < key.len() ==> !is_space(#[trigger] key[k]) && key[k] != '=' && key[k] != '.'
    &&& index_of(key) is None
}

/// The text of the assignment of a scalar value to a key.
pub open spec fn assignment_text(key: Seq<char>, v: Tree) -> Seq<char> {
    key + seq![' ', '=', ' '] + literal_text(v)
}

proof fn lemma_key_token(s: Seq<char>, i: int, end: int)
    requires
        0 <= i <= end < s.len(),
        forall|k: int| i <= k < end ==> !is_space(#[trigger] s[k]) && s[k] != '=',
        s[end] == ' ',
    ensures
        token_end(s, i, key_stops()) == end,
    decreases end - i,
{
    let stops = key_stops();
    if i < end {
        assert(!stops.contains(s[i])) by {
            if stops.contains(s[i]) {
                let k = choose|k: int| 0 <= k < stops.len() && stops[k] == s[i];
                assert(is_space(stops[k]) || stops[k] == '=');
            }
        }
        lemma_key_token(s, i + 1, end);
    } else {
        assert(stops[0] == ' ');
    }
}

/// The round trip of a scalar: the document `key = literal`, where the
/// literal is that of the scalar value `v`, has a root table whose one entry
/// holds `v` under `key`, and `lookup` of the key in it leads to `v`.
pub proof fn lemma_scalar_round_trip(key: Seq<char>, v: Tree)
    requires
        is_plain_key(key),
        is_scalar(v),
    ensures
        document(assignment_text(key, v), None) == Ok::<Tree, ErrorView>(
            Tree::Table(false, seq![(key, v)]),
        ),
        Tree::Table(false, seq![(key, v)]).lookup(key) == Some(v),
{
    let s = assignment_text(key, v);
    let text = literal_text(v);
    let n = key.len() as int;
    lemma_literal_start(v);
    assert forall|k: int| 0 <= k < n implies s[k] == key[k] by {}
    assert(s[n] == ' ' && s[n + 1] == '=' && s[n + 2] == ' ');
    assert forall|k: int| 0 <= k < text.len() implies s[n + 3 + k] == #[trigger] text[k] by {}
    assert(s[n + 3] == text[0]);
    assert(!is_space(s[0]));
    assert(skip_blank(s, 0) == 0);
    lemma_key_token(s, 0, n);
    assert(s.subrange(0, n) =~= key);
    assert(skip_spaces(s, n) == n + 1) by {
        reveal_with_fuel(skip_spaces, 2);
    }
    assert(skip_blank(s, n + 2) == n + 3) by {
        reveal_with_fuel(skip_blank, 2);
    }
    lemma_literal_reads(s, n + 2, n + 3, v);
    assert(pair_at(s, 0) == (Item::Found(Event::Pair(key, v)), s.len() as int));
    assert(item_at(s, 0) == (Item::Found(Event::Pair(key, v)), s.len() as int));
    assert(item_at(s, s.len() as int).0 is End);
    assert(!key.contains('.'));
    lemma_single_assignment(s, key, v, s.len() as int);
}

} // verus!
