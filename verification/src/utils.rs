//! Conversion of whitespace-separated hexadecimal text into bytes.

use vstd::prelude::*;

use crate::hexchars::{hex_digit, hex_digit_val, hex_val, is_hex_digit};
use crate::strutil::{remove_spaces, strip_spaces};

verus! {

/// The bytes denoted by a string of hexadecimal digits, two digits per
/// byte, high nibble first; a trailing unpaired digit is dropped.
pub open spec fn bytes_of_hex(h: Seq<char>) -> Seq<u8>
    decreases h.len(),
{
    if h.len() < 2 {
        Seq::empty()
    } else {
        seq![(hex_val(h[0]) * 16 + hex_val(h[1])) as u8] + bytes_of_hex(h.skip(2))
    }
}

/// Every character of `s` is a hexadecimal digit.
pub open spec fn all_hex_digits(s: Seq<char>) -> bool {
    forall|k: int| 0 <= k < s.len() ==> is_hex_digit(s[k])
}

/// Every character of `s` is a space or a hexadecimal digit.
pub open spec fn spaced_hex(s: Seq<char>) -> bool {
    forall|k: int| 0 <= k < s.len() ==> (s[k] == ' ' || is_hex_digit(s[k]))
}

pub proof fn lemma_remove_spaces_hex(s: Seq<char>)
    ensures
        all_hex_digits(remove_spaces(s)) <==> spaced_hex(s),
    decreases s.len(),
{
    if s.len() == 0 {
    } else {
        let s0 = s.drop_last();
        let c = s.last();
        lemma_remove_spaces_hex(s0);
        assert forall|k: int| 0 <= k < s0.len() implies s0[k] == s[k] by {}
        if c == ' ' {
            assert(remove_spaces(s) == remove_spaces(s0));
            if spaced_hex(s0) {
                assert(spaced_hex(s));
            }
        } else {
            let r0 = remove_spaces(s0);
            assert(remove_spaces(s) == r0.push(c));
            if all_hex_digits(r0) && is_hex_digit(c) {
                assert forall|k: int| 0 <= k < r0.push(c).len() implies is_hex_digit(
                    r0.push(c)[k],
                ) by {
                    if k < r0.len() {
                        assert(r0.push(c)[k] == r0[k]);
                    }
                }
            }
            if all_hex_digits(r0.push(c)) {
                assert forall|k: int| 0 <= k < r0.len() implies is_hex_digit(r0[k]) by {
                    assert(r0.push(c)[k] == r0[k]);
                }
                assert(r0.push(c)[r0.len() as int] == c);
                assert(is_hex_digit(c));
            }
            if spaced_hex(s) {
                assert(spaced_hex(s0));
                assert(is_hex_digit(c));
            }
            if spaced_hex(s0) && is_hex_digit(c) {
                assert(spaced_hex(s));
            }
        }
    }
}

/// Converts hexadecimal text with optional spaces into bytes: `Some` exactly
/// when every character is a space or a hexadecimal digit.  Two digits make
/// one byte; a trailing unpaired digit is dropped.
pub fn try_stob(s: &str) -> (r: Option<Vec<u8>>)
    ensures
        r is Some <==> spaced_hex(s@),
        r matches Some(v) ==> v@ == bytes_of_hex(remove_spaces(s@)),
{
    let stripped = strip_spaces(s);
    let h = stripped.as_str();
    let hn = h.unicode_len();
    proof {
        lemma_remove_spaces_hex(s@);
    }
    let mut i: usize = 0;
    while i < hn
        invariant
            h@ == remove_spaces(s@),
            hn == h@.len(),
            i <= hn,
            forall|k: int| 0 <= k < i ==> is_hex_digit(h@[k]),
        decreases hn - i,
    {
        if !hex_digit(h.get_char(i)) {
            proof {
                assert(!is_hex_digit(h@[i as int]));
                assert(!all_hex_digits(h@));
                lemma_remove_spaces_hex(s@);
            }
            return None;
        }
        i += 1;
    }
    let mut out: Vec<u8> = Vec::new();
    let mut j: usize = 0;
    proof {
        assert(h@.skip(0) =~= h@);
        assert(out@ + bytes_of_hex(h@) =~= bytes_of_hex(h@));
    }
    while hn - j >= 2
        invariant
            h@ == remove_spaces(s@),
            hn == h@.len(),
            j <= hn,
            all_hex_digits(h@),
            bytes_of_hex(h@) == out@ + bytes_of_hex(h@.skip(j as int)),
        decreases hn - j,
    {
        let hi = hex_digit_val(h.get_char(j));
        let lo = hex_digit_val(h.get_char(j + 1));
        proof {
            let rest = h@.skip(j as int);
            assert(rest[0] == h@[j as int]);
            assert(rest[1] == h@[j as int + 1]);
            assert(rest.skip(2) =~= h@.skip(j as int + 2));
            assert((out@ + bytes_of_hex(rest)) =~= (out@.push((hex_val(rest[0]) * 16 + hex_val(
                rest[1],
            )) as u8) + bytes_of_hex(rest.skip(2))));
        }
        out.push(hi * 16 + lo);
        j += 2;
    }
    proof {
        assert(bytes_of_hex(h@.skip(j as int)) =~= Seq::<u8>::empty());
        assert(out@ + Seq::<u8>::empty() =~= out@);
    }
    Some(out)
}

/// Converts hexadecimal text with optional spaces into bytes, two digits per
/// byte; the text must hold nothing but spaces and hexadecimal digits.
pub fn stob(s: &str) -> (r: Vec<u8>)
    requires
        spaced_hex(s@),
    ensures
        r@ == bytes_of_hex(remove_spaces(s@)),
{
    let r = try_stob(s);
    r.unwrap()
}

} // verus!
