//! Characters and strings: what the standard library is trusted to do, and
//! conversions between strings and character vectors.

use vstd::prelude::*;
use vstd::std_specs::iter::IteratorSpec;

verus! {

/// `String::push` appends the character to the string.
pub assume_specification[ std::string::String::push ](s: &mut std::string::String, ch: char)
    ensures
        final(s)@ == old(s)@.push(ch),
;

/// `char::from_u32` gives the character with the given scalar value; it gives
/// `None` for a surrogate and for a number above `0x10FFFF`.
pub assume_specification[ char::from_u32 ](i: u32) -> (r: Option<char>)
    ensures
        r == if is_scalar_value(i) {
            Some(i as char)
        } else {
            None::<char>
        },
;

/// The numbers that are Unicode scalar values.
pub open spec fn is_scalar_value(i: u32) -> bool {
    i <= 0xD7FF || (0xE000 <= i && i <= 0x10FFFF)
}

/// The characters of an optional string.
pub open spec fn text_of(o: Option<String>) -> Option<Seq<char>> {
    match o {
        Some(s) => Some(s@),
        None => None,
    }
}

/// The characters of a string slice, in order.
pub fn chars_of(s: &str) -> (v: Vec<char>)
    ensures
        v@ == s@,
{
    let mut v: Vec<char> = Vec::new();
    let mut it = s.chars();
    loop
        invariant
            it.obeys_prophetic_iter_laws(),
            it.decrease() is Some,
            v@ + it.remaining() == s@,
        ensures
            v@ == s@,
        decreases it.decrease().unwrap(),
    {
        match it.next() {
            Some(c) => {
                v.push(c);
            },
            None => {
                break ;
            },
        }
    }
    v
}

/// The string made of the characters `chars[from..to]`.
pub(crate) fn string_of(chars: &Vec<char>, from: usize, to: usize) -> (s: String)
    requires
        from <= to <= chars.len(),
    ensures
        s@ == chars@.subrange(from as int, to as int),
{
    let mut s = String::new();
    let mut i: usize = from;
    while i < to
        invariant
            from <= i <= to <= chars.len(),
            s@ == chars@.subrange(from as int, i as int),
        decreases to - i,
    {
        s.push(chars[i]);
        i = i + 1;
    }
    s
}

/// The character sequences of a sequence of strings.
pub open spec fn strings(v: Seq<String>) -> Seq<Seq<char>> {
    Seq::new(v.len(), |i: int| v[i]@)
}

/// The first position at or after `i` that holds a dot, or the end.
pub open spec fn segment_end(s: Seq<char>, i: int) -> int
    decreases s.len() - i,
{
    if 0 <= i < s.len() && s[i] != '.' {
        segment_end(s, i + 1)
    } else {
        i
    }
}

/// The segments between the dots of `s` from position `i` on.
pub open spec fn segments_from(s: Seq<char>, i: int) -> Seq<Seq<char>>
    decreases s.len() - i,
{
    let e = segment_end(s, i);
    if 0 <= i <= e < s.len() {
        seq![s.subrange(i, e)] + segments_from(s, e + 1)
    } else {
        seq![s.subrange(i, e)]
    }
}

/// The segments between the dots of `s`: one more than it has dots.
pub open spec fn split_dots(s: Seq<char>) -> Seq<Seq<char>> {
    segments_from(s, 0)
}

/// Splits `chars` at its dots.
pub fn split_segments(chars: &Vec<char>) -> (segs: Vec<String>)
    ensures
        strings(segs@) == split_dots(chars@),
        segs@.len() > 0,
{
    let ghost s = chars@;
    let mut segs: Vec<String> = Vec::new();
    let mut start: usize = 0;
    assert(strings(segs@) =~= Seq::<Seq<char>>::empty());
    loop
        invariant_except_break
            strings(segs@) + segments_from(s, start as int) == split_dots(s),
        invariant
            s == chars@,
            start <= chars.len(),
        ensures
            strings(segs@) == split_dots(s),
            segs@.len() > 0,
        decreases chars.len() - start,
    {
        let mut end: usize = start;
        while end < chars.len() && chars[end] != '.'
            invariant
                s == chars@,
                start <= end <= chars.len(),
                segment_end(s, end as int) == segment_end(s, start as int),
            decreases chars.len() - end,
        {
            end = end + 1;
        }
        let seg = string_of(chars, start, end);
        let ghost before = strings(segs@);
        segs.push(seg);
        assert(strings(segs@) =~= before.push(seg@));
        if end < chars.len() {
            assert(before.push(seg@) + segments_from(s, end + 1) =~= before + segments_from(
                s,
                start as int,
            ));
            start = end + 1;
        } else {
            assert(before.push(seg@) =~= before + segments_from(s, start as int));
            break ;
        }
    }
    segs
}

} // verus!
