//! The nibble-level template compiler: turns template text into parallel
//! mask and fixed-value byte arrays, two hexadecimal positions per byte.

use vstd::prelude::*;

use crate::hexchars::{hex_digit, hex_digit_val, hex_val, is_hex_digit};
use crate::strutil::{remove_spaces, strip_spaces};

verus! {

/// Mask contribution of one template character: `0xF` for a fixed
/// hexadecimal digit, `0x0` for a placeholder.
pub open spec fn nibble_mask(c: char) -> u8 {
    if is_hex_digit(c) {
        0xF
    } else {
        0
    }
}

/// Value contribution of one template character: its digit value for a
/// fixed hexadecimal digit, `0` for a placeholder.
pub open spec fn nibble_val(c: char) -> u8 {
    if is_hex_digit(c) {
        hex_val(c)
    } else {
        0
    }
}

/// The mask bytes of a nibble stream: two characters per byte, high nibble
/// first; a trailing unpaired character is dropped.
pub open spec fn nibble_masks(h: Seq<char>) -> Seq<u8>
    decreases h.len(),
{
    if h.len() < 2 {
        Seq::empty()
    } else {
        seq![(nibble_mask(h[0]) * 16 + nibble_mask(h[1])) as u8] + nibble_masks(h.skip(2))
    }
}

/// The fixed-value bytes of a nibble stream: two characters per byte, high
/// nibble first; a trailing unpaired character is dropped.
pub open spec fn nibble_vals(h: Seq<char>) -> Seq<u8>
    decreases h.len(),
{
    if h.len() < 2 {
        Seq::empty()
    } else {
        seq![(nibble_val(h[0]) * 16 + nibble_val(h[1])) as u8] + nibble_vals(h.skip(2))
    }
}

/// A byte sequence recognized from an inbound stream, tagged with the name
/// of the codec that matched it.
pub struct MIDICallbackCommand {
    pub identifier: String,
    pub data: Vec<usize>,
}

/// Compiles template text at nibble granularity, independent of what the
/// placeholder letters mean.
pub struct MIDIParser {}

/// A template whose text does not denote a whole number of bytes.
#[derive(Debug, Clone, Copy, PartialEq, Eq, Structural)]
pub enum TemplateError {
    OddLength,
}

impl MIDIParser {
    /// Mask bytes of a template: spaces are dropped, then each pair of
    /// characters yields one byte whose nibbles are `0xF` where the
    /// character is a hexadecimal digit and `0x0` where it is a
    /// placeholder; a trailing unpaired character is dropped.
    pub fn destringify(code: &str) -> (r: Vec<u8>)
        ensures
            r@ == nibble_masks(remove_spaces(code@)),
    {
        let stripped = strip_spaces(code);
        let h = stripped.as_str();
        let hn = h.unicode_len();
        let mut out: Vec<u8> = Vec::new();
        let mut j: usize = 0;
        proof {
            assert(h@.skip(0) =~= h@);
            assert(out@ + nibble_masks(h@) =~= nibble_masks(h@));
        }
        while hn - j >= 2
            invariant
                h@ == remove_spaces(code@),
                hn == h@.len(),
                j <= hn,
                nibble_masks(h@) == out@ + nibble_masks(h@.skip(j as int)),
            decreases hn - j,
        {
            let hi: u8 = if hex_digit(h.get_char(j)) {
                0xF0
            } else {
                0
            };
            let lo: u8 = if hex_digit(h.get_char(j + 1)) {
                0x0F
            } else {
                0
            };
            proof {
                let rest = h@.skip(j as int);
                assert(rest[0] == h@[j as int]);
                assert(rest[1] == h@[j as int + 1]);
                assert(rest.skip(2) =~= h@.skip(j as int + 2));
                assert((out@ + nibble_masks(rest)) =~= (out@.push((nibble_mask(rest[0]) * 16
                    + nibble_mask(rest[1])) as u8) + nibble_masks(rest.skip(2))));
            }
            out.push(hi + lo);
            j += 2;
        }
        proof {
            assert(nibble_masks(h@.skip(j as int)) =~= Seq::<u8>::empty());
            assert(out@ + Seq::<u8>::empty() =~= out@);
        }
        out
    }

    /// Fixed-value bytes of a template: spaces are dropped, then each pair
    /// of characters yields one byte holding the digit values of its fixed
    /// nibbles, `0` in placeholder positions; a trailing unpaired character
    /// is dropped.
    pub fn maskify(code: &str) -> (r: Vec<u8>)
        ensures
            r@ == nibble_vals(remove_spaces(code@)),
    {
        let stripped = strip_spaces(code);
        let h = stripped.as_str();
        let hn = h.unicode_len();
        let mut out: Vec<u8> = Vec::new();
        let mut j: usize = 0;
        proof {
            assert(h@.skip(0) =~= h@);
            assert(out@ + nibble_vals(h@) =~= nibble_vals(h@));
        }
        while hn - j >= 2
            invariant
                h@ == remove_spaces(code@),
                hn == h@.len(),
                j <= hn,
                nibble_vals(h@) == out@ + nibble_vals(h@.skip(j as int)),
            decreases hn - j,
        {
            let c0 = h.get_char(j);
            let c1 = h.get_char(j + 1);
            let hi: u8 = if hex_digit(c0) {
                hex_digit_val(c0)
            } else {
                0
            };
            let lo: u8 = if hex_digit(c1) {
                hex_digit_val(c1)
            } else {
                0
            };
            proof {
                let rest = h@.skip(j as int);
                assert(rest[0] == h@[j as int]);
                assert(rest[1] == h@[j as int + 1]);
                assert(rest.skip(2) =~= h@.skip(j as int + 2));
                assert((out@ + nibble_vals(rest)) =~= (out@.push((nibble_val(rest[0]) * 16
                    + nibble_val(rest[1])) as u8) + nibble_vals(rest.skip(2))));
            }
            out.push(hi * 16 + lo);
            j += 2;
        }
        proof {
            assert(nibble_vals(h@.skip(j as int)) =~= Seq::<u8>::empty());
            assert(out@ + Seq::<u8>::empty() =~= out@);
        }
        out
    }

    /// Compiles a template into its mask and fixed-value byte arrays, two
    /// characters per byte after spaces are removed; a template whose text
    /// is not a whole number of bytes is rejected rather than padded.
    pub fn compile(code: &str) -> (r: Result<(Vec<u8>, Vec<u8>), TemplateError>)
        ensures
            r is Ok <==> remove_spaces(code@).len() % 2 == 0,
            r matches Ok(p) ==> p.0@ == nibble_masks(remove_spaces(code@)) && p.1@ == nibble_vals(
                remove_spaces(code@),
            ),
    {
        let stripped = strip_spaces(code);
        let hn = stripped.as_str().unicode_len();
        if hn % 2 != 0 {
            return Err(TemplateError::OddLength);
        }
        Ok((Self::destringify(code), Self::maskify(code)))
    }
}

} // verus!
