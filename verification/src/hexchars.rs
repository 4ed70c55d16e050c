//! Classification and value of hexadecimal digit characters, and the
//! rendering of unsigned values as fixed-width lowercase hexadecimal text.

use vstd::prelude::*;

use crate::strutil::push_char;

verus! {

/// The sixteen hexadecimal digit characters, upper or lower case.
pub open spec fn is_hex_digit(c: char) -> bool {
    (48 <= c as u32 && c as u32 <= 57)  // '0' ..= '9'
    || (65 <= c as u32 && c as u32 <= 70)  // 'A' ..= 'F'
    || (97 <= c as u32 && c as u32 <= 102)  // 'a' ..= 'f'
}

/// Numeric value of a hexadecimal digit character; 0 on any other character.
pub open spec fn hex_val(c: char) -> u8 {
    if 48 <= c as u32 && c as u32 <= 57 {
        (c as u32 - 48) as u8
    } else if 65 <= c as u32 && c as u32 <= 70 {
        (c as u32 - 65 + 10) as u8
    } else if 97 <= c as u32 && c as u32 <= 102 {
        (c as u32 - 97 + 10) as u8
    } else {
        0
    }
}

pub fn hex_digit(c: char) -> (b: bool)
    ensures
        b == is_hex_digit(c),
{
    let v = c as u32;
    (48 <= v && v <= 57) || (65 <= v && v <= 70) || (97 <= v && v <= 102)
}

pub fn hex_digit_val(c: char) -> (v: u8)
    ensures
        v == hex_val(c),
{
    let u = c as u32;
    if 48 <= u && u <= 57 {
        (u - 48) as u8
    } else if 65 <= u && u <= 70 {
        (u - 65 + 10) as u8
    } else if 97 <= u && u <= 102 {
        (u - 97 + 10) as u8
    } else {
        0
    }
}

/// Lowercase hexadecimal digit character for a nibble value below 16.
pub open spec fn hex_char_of(v: u8) -> char {
    if v < 10 {
        ((48 + v) as u8) as char
    } else {
        ((87 + v) as u8) as char  // 87 + 10 == 97 == 'a'
    }
}

pub fn hex_char(v: u8) -> (c: char)
    requires
        v < 16,
    ensures
        c == hex_char_of(v),
{
    if v < 10 {
        (48 + v) as char
    } else {
        (87 + v) as char
    }
}

/// 16 to the power `w`: the number of values a field of `w` nibbles can hold.
pub open spec fn pow16(w: nat) -> nat
    decreases w,
{
    if w == 0 {
        1
    } else {
        16 * pow16((w - 1) as nat)
    }
}

/// `v` rendered as exactly `w` lowercase hexadecimal digits, least
/// significant nibble last; high nibbles beyond `w` are not represented.
pub open spec fn spec_render(v: nat, w: nat) -> Seq<char>
    decreases w,
{
    if w == 0 {
        Seq::empty()
    } else {
        spec_render(v / 16, (w - 1) as nat).push(hex_char_of((v % 16) as u8))
    }
}

pub proof fn lemma_spec_render_len(v: nat, w: nat)
    ensures
        spec_render(v, w).len() == w,
    decreases w,
{
    if w > 0 {
        lemma_spec_render_len(v / 16, (w - 1) as nat);
    }
}

/// Renders `v` as exactly `w` lowercase hexadecimal digits; nibbles of `v`
/// above the `w`-th are dropped.
pub fn hex_render(v: usize, w: usize) -> (r: String)
    ensures
        r@ == spec_render(v as nat, w as nat),
    decreases w,
{
    if w == 0 {
        String::new()
    } else {
        let mut s = hex_render(v / 16, w - 1);
        push_char(&mut s, hex_char((v % 16) as u8));
        s
    }
}

/// Whether `v` fits in `w` hexadecimal nibbles.
pub fn value_fits(v: usize, w: usize) -> (b: bool)
    ensures
        b == ((v as nat) < pow16(w as nat)),
{
    let mut rest: usize = v;
    let mut i: usize = 0;
    proof {
        vstd::arithmetic::div_mod::lemma_div_basics(v as int);
    }
    while i < w
        invariant
            i <= w,
            rest == (v as nat) / pow16(i as nat),
        decreases w - i,
    {
        proof {
            lemma_pow16_pos(i as nat);
            lemma_pow16_step(i as nat);
            vstd::arithmetic::div_mod::lemma_div_denominator(
                v as int,
                pow16(i as nat) as int,
                16,
            );
        }
        rest = rest / 16;
        i += 1;
    }
    proof {
        lemma_pow16_pos(w as nat);
        if (v as nat) < pow16(w as nat) {
            vstd::arithmetic::div_mod::lemma_basic_div(v as int, pow16(w as nat) as int);
        } else {
            vstd::arithmetic::div_mod::lemma_div_non_zero(v as int, pow16(w as nat) as int);
        }
    }
    rest == 0
}

pub proof fn lemma_pow16_pos(w: nat)
    ensures
        pow16(w) >= 1,
    decreases w,
{
    if w > 0 {
        lemma_pow16_pos((w - 1) as nat);
    }
}

pub proof fn lemma_pow16_step(w: nat)
    ensures
        pow16((w + 1) as nat) == pow16(w) * 16,
{
    assert(pow16((w + 1) as nat) == 16 * pow16(w));
}

} // verus!
