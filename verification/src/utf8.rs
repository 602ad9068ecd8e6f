//! Decoding of UTF-8 into characters.

use vstd::prelude::*;
use vstd::utf8::{
    decode_first_scalar, decode_utf8, length_of_first_scalar, pop_first_scalar, valid_first_scalar,
    valid_utf8,
};

verus! {

/// The number of leading bytes of `b` that are well-formed UTF-8: the bytes
/// of the scalars that can be decoded in turn from its start.
pub open spec fn prefix_len(b: Seq<u8>) -> int
    decreases b.len(),
{
    if b.len() > 0 && valid_first_scalar(b) {
        length_of_first_scalar(b) + prefix_len(pop_first_scalar(b))
    } else {
        0
    }
}

/// The characters that the well-formed leading bytes of `b` encode.
pub open spec fn prefix_chars(b: Seq<u8>) -> Seq<char>
    decreases b.len(),
{
    if b.len() > 0 && valid_first_scalar(b) {
        seq![decode_first_scalar(b) as char] + prefix_chars(pop_first_scalar(b))
    } else {
        Seq::empty()
    }
}

/// Bytes that are UTF-8 as a whole are their own well-formed prefix, and its
/// characters are those that the bytes encode.
pub proof fn lemma_prefix_of_valid(b: Seq<u8>)
    requires
        valid_utf8(b),
    ensures
        prefix_len(b) == b.len(),
        prefix_chars(b) == decode_utf8(b),
    decreases b.len(),
{
    if b.len() > 0 {
        lemma_prefix_of_valid(pop_first_scalar(b));
    }
}

/// Decodes the well-formed leading bytes of `bytes`; gives their characters
/// and their number.
pub fn decode_prefix(bytes: &[u8]) -> (r: (Vec<char>, usize))
    ensures
        r.0@ == prefix_chars(bytes@),
        r.1 as int == prefix_len(bytes@),
        r.1 <= bytes@.len(),
{
    let ghost all = bytes@;
    let n = bytes.len();
    let mut chars: Vec<char> = Vec::new();
    let mut i: usize = 0;
    assert(all.subrange(0, all.len() as int) =~= all);
    loop
        invariant_except_break
            chars@ + prefix_chars(all.subrange(i as int, all.len() as int)) == prefix_chars(all),
            i + prefix_len(all.subrange(i as int, all.len() as int)) == prefix_len(all),
        invariant
            all == bytes@,
            n == bytes.len(),
            i <= n,
        ensures
            chars@ == prefix_chars(all),
            i as int == prefix_len(all),
        decreases n - i,
    {
        let ghost rest = all.subrange(i as int, all.len() as int);
        if i >= n {
            assert(chars@ + Seq::<char>::empty() =~= chars@);
            break ;
        }
        let b0 = bytes[i];
        assert(rest[0] == b0);
        let mut width: usize = 0;
        let mut code: u32 = 0;
        if b0 <= 0x7f {
            code = (b0 & 0x7f) as u32;
            assert((b0 & 0x7f) <= 0x7f) by (bit_vector);
            width = 1;
        } else if 0xc0 <= b0 && b0 <= 0xdf {
            if n - i >= 2 {
                let b1 = bytes[i + 1];
                assert(rest[1] == b1);
                if 0x80 <= b1 && b1 <= 0xbf {
                    code = (((b0 & 0x1f) as u32) << 6) | ((b1 & 0x3f) as u32);
                    assert(((((b0 & 0x1f) as u32) << 6) | ((b1 & 0x3f) as u32)) <= 0x7ff)
                        by (bit_vector);
                    if 0x80 <= code {
                        width = 2;
                    }
                }
            }
        } else if 0xe0 <= b0 && b0 <= 0xef {
            if n - i >= 3 {
                let b1 = bytes[i + 1];
                let b2 = bytes[i + 2];
                assert(rest[1] == b1);
                assert(rest[2] == b2);
                if 0x80 <= b1 && b1 <= 0xbf && 0x80 <= b2 && b2 <= 0xbf {
                    code = (((b0 & 0x0f) as u32) << 12) | (((b1 & 0x3f) as u32) << 6) | ((b2
                        & 0x3f) as u32);
                    assert(((((b0 & 0x0f) as u32) << 12) | (((b1 & 0x3f) as u32) << 6) | ((b2
                        & 0x3f) as u32)) <= 0xffff) by (bit_vector);
                    if 0x800 <= code && !(0xd800 <= code && code <= 0xdfff) {
                        width = 3;
                    }
                }
            }
        } else if 0xf0 <= b0 && b0 <= 0xf7 {
            if n - i >= 4 {
                let b1 = bytes[i + 1];
                let b2 = bytes[i + 2];
                let b3 = bytes[i + 3];
                assert(rest[1] == b1);
                assert(rest[2] == b2);
                assert(rest[3] == b3);
                if 0x80 <= b1 && b1 <= 0xbf && 0x80 <= b2 && b2 <= 0xbf && 0x80 <= b3 && b3
                    <= 0xbf {
                    code = (((b0 & 0x07) as u32) << 18) | (((b1 & 0x3f) as u32) << 12) | (((b2
                        & 0x3f) as u32) << 6) | ((b3 & 0x3f) as u32);
                    if 0x10000 <= code && code <= 0x10ffff {
                        width = 4;
                    }
                }
            }
        }
        if width == 0 {
            assert(!valid_first_scalar(rest));
            assert(chars@ + Seq::<char>::empty() =~= chars@);
            break ;
        }
        assert(valid_first_scalar(rest));
        assert(length_of_first_scalar(rest) == width);
        assert(decode_first_scalar(rest) == code);
        match char::from_u32(code) {
            Some(c) => {
                let ghost before = chars@;
                chars.push(c);
                assert(pop_first_scalar(rest) =~= all.subrange(i + width, all.len() as int));
                assert(before.push(c) + prefix_chars(pop_first_scalar(rest)) =~= before
                    + prefix_chars(rest));
                i = i + width;
            },
            None => {
                assert(false);
                break ;
            },
        }
    }
    (chars, i)
}

} // verus!
