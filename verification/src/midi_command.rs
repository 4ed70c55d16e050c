//! The command codec: a named template plus its ordered parameters,
//! compiled once into mask/value byte arrays, able to generate outbound
//! byte sequences, match inbound ones and extract their variable bytes.

use vstd::prelude::*;

use crate::hexchars::{hex_digit, hex_digit_val, is_hex_digit, pow16, spec_render, hex_render,
    value_fits};
use crate::midi_parser::nibble_val;
use crate::strutil::{spec_split, split_char, spec_trim, trim, spec_replace, replace_str,
    all_dec_digits, dec_val, parse_usize};
use crate::utils::{bytes_of_hex, spaced_hex, try_stob};
use crate::strutil::remove_spaces;

verus! {

/// A parameter declaration that does not have the three colon-separated
/// fields, or whose width field is not a non-negative integer.
#[derive(Debug, Clone, Copy, PartialEq, Eq, Structural)]
pub enum MalformedParameterError {
    TooFewFields,
    BadWidth,
}

/// Errors of the generate operations.
#[derive(Debug, Clone, Copy, PartialEq, Eq, Structural)]
pub enum CodecError {
    /// The value count differs from the declared parameter count.
    ArityMismatch,
    /// A value needs more hexadecimal digits than its parameter's width.
    ValueTooLarge,
    /// After substitution the text still holds non-hexadecimal characters.
    UnresolvedPlaceholder,
}

/// A named variable field: `key` is the substitution token in template
/// text, `size` the number of hexadecimal digits the value occupies when
/// rendered, `name` a descriptive label.
pub struct MidiParameter {
    pub key: String,
    pub size: usize,
    pub name: String,
}

impl Clone for MidiParameter {
    fn clone(&self) -> (r: Self)
        ensures
            r == *self,
    {
        MidiParameter { key: self.key.clone(), size: self.size, name: self.name.clone() }
    }
}

impl MidiParameter {
    pub fn new(key: String, size: usize, name: String) -> (r: MidiParameter)
        ensures
            r.key == key,
            r.size == size,
            r.name == name,
    {
        MidiParameter { key, size, name }
    }

    pub fn new_str(key: &str, size: usize, name: &str) -> (r: MidiParameter)
        ensures
            r.key@ == key@,
            r.size == size,
            r.name@ == name@,
    {
        MidiParameter {
            key: String::from_str(key),
            size,
            name: String::from_str(name),
        }
    }

    /// Parses a declaration of the form `key : width : label`, each field
    /// trimmed; fields beyond the third are ignored.
    pub fn new_parse(data: &str) -> (r: Result<MidiParameter, MalformedParameterError>)
        ensures
            ({
                let parts = spec_split(data@, ':');
                &&& (parts.len() < 3 ==> r == Err::<MidiParameter, MalformedParameterError>(
                    MalformedParameterError::TooFewFields,
                ))
                &&& (parts.len() >= 3 && !(spec_trim(parts[1]).len() > 0 && all_dec_digits(
                    spec_trim(parts[1]),
                ) && dec_val(spec_trim(parts[1])) <= usize::MAX) ==> r == Err::<
                    MidiParameter,
                    MalformedParameterError,
                >(MalformedParameterError::BadWidth))
                &&& (parts.len() >= 3 && spec_trim(parts[1]).len() > 0 && all_dec_digits(
                    spec_trim(parts[1]),
                ) && dec_val(spec_trim(parts[1])) <= usize::MAX ==> (r matches Ok(p)
                    && p.key@ == spec_trim(parts[0]) && p.size == dec_val(spec_trim(parts[1]))
                    && p.name@ == spec_trim(parts[2])))
            }),
    {
        let tokens = split_char(data, ':');
        proof {
            assert(tokens.deep_view().len() == tokens@.len());
        }
        if tokens.len() < 3 {
            return Err(MalformedParameterError::TooFewFields);
        }
        proof {
            assert(tokens.deep_view()[0] == tokens@[0]@);
            assert(tokens.deep_view()[1] == tokens@[1]@);
            assert(tokens.deep_view()[2] == tokens@[2]@);
        }
        let key = trim(tokens[0].as_str());
        let width_text = trim(tokens[1].as_str());
        let name = trim(tokens[2].as_str());
        match parse_usize(width_text.as_str()) {
            Some(size) => Ok(MidiParameter { key, size, name }),
            None => Err(MalformedParameterError::BadWidth),
        }
    }

    /// The number of hexadecimal digits a rendered value occupies.
    pub fn characters(&self) -> (r: usize)
        ensures
            r == self.size,
    {
        self.size
    }

    /// Renders `value` as lowercase hexadecimal, zero-padded to exactly
    /// `size` digits; the value must fit in that many digits.
    pub fn midi(&self, value: usize) -> (r: String)
        requires
            (value as nat) < pow16(self.size as nat),
        ensures
            r@ == spec_render(value as nat, self.size as nat),
    {
        hex_render(value, self.size)
    }
}

/// Mask byte of one template token: `0xF` nibbles where the token's
/// characters are hexadecimal digits.  A one-character token stands for a
/// whole byte; tokens of any other length than 1 or 2 yield `0x00`.
pub open spec fn token_mask(t: Seq<char>) -> u8 {
    if t.len() == 1 {
        if is_hex_digit(t[0]) {
            0xFF
        } else {
            0x00
        }
    } else if t.len() == 2 {
        ((if is_hex_digit(t[0]) {
            0xF0int
        } else {
            0int
        }) + (if is_hex_digit(t[1]) {
            0x0Fint
        } else {
            0int
        })) as u8
    } else {
        0x00
    }
}

/// Fixed-value byte of one template token: the digit values of its
/// hexadecimal characters in place, `0` in placeholder positions.  A
/// one-character token contributes its value in the low nibble; tokens of
/// any other length than 1 or 2 yield `0x00`.
pub open spec fn token_val(t: Seq<char>) -> u8 {
    if t.len() == 1 {
        nibble_val(t[0])
    } else if t.len() == 2 {
        (nibble_val(t[0]) * 16 + nibble_val(t[1])) as u8
    } else {
        0x00
    }
}

/// `midi` with, for each pair in order, every occurrence of the pair's
/// first component replaced by its second.
pub open spec fn spec_subst(midi: Seq<char>, pairs: Seq<(Seq<char>, Seq<char>)>) -> Seq<char>
    decreases pairs.len(),
{
    if pairs.len() == 0 {
        midi
    } else {
        spec_subst(spec_replace(midi, pairs[0].0, pairs[0].1), pairs.drop_first())
    }
}

/// Every value fits in its parameter's declared width.
pub open spec fn all_values_fit(params: Seq<MidiParameter>, values: Seq<usize>) -> bool {
    forall|i: int| 0 <= i < params.len() ==> (values[i] as nat) < pow16(params[i].size as nat)
}

/// The key of each parameter paired with its rendered value.
pub open spec fn rendered_pairs(params: Seq<MidiParameter>, values: Seq<usize>) -> Seq<
    (Seq<char>, Seq<char>),
> {
    Seq::new(params.len(), |i: int| (params[i].key@, spec_render(values[i] as nat, params[i].size as nat)))
}

/// Whether `data` matches a compiled template: same length, and each byte
/// agrees with the fixed value on the masked nibbles.
pub open spec fn spec_matches(data: Seq<u8>, mask: Seq<u8>, fixd: Seq<u8>) -> bool {
    data.len() == fixd.len() && forall|i: int|
        0 <= i < data.len() ==> (data[i] & mask[i]) == fixd[i]
}

/// The variable bytes of `data`: for every position whose mask byte is not
/// `0xFF`, the data byte with its fixed nibbles cleared, in byte order.
pub open spec fn spec_extract(data: Seq<u8>, mask: Seq<u8>) -> Seq<u8>
    decreases data.len(),
{
    if data.len() == 0 || mask.len() == 0 {
        Seq::empty()
    } else {
        spec_extract(data.drop_last(), mask.drop_last()) + (if mask.last() == 0xFF {
            Seq::empty()
        } else {
            seq![data.last() & !mask.last()]
        })
    }
}

/// Two codecs that hold the same data: equal names and template text, and
/// the same parameters, aliases and compiled arrays.  A clone of a codec is
/// related to it by this predicate.
pub open spec fn cmd_eq(a: MidiCommand, b: MidiCommand) -> bool {
    &&& a.name == b.name
    &&& a.midi == b.midi
    &&& a.parameters@ == b.parameters@
    &&& a.aliases@ == b.aliases@
    &&& a.mask@ == b.mask@
    &&& a.masked_val@ == b.masked_val@
}

/// A compiled command codec.
pub struct MidiCommand {
    /// Canonical display name.
    pub name: String,
    /// The textual template the codec was built from.
    pub midi: String,
    /// The declared parameters, in declaration order.
    pub parameters: Vec<MidiParameter>,
    /// Alternate lookup names.
    pub aliases: Vec<String>,
    /// Compiled mask bytes, one per template token.
    pub mask: Vec<u8>,
    /// Compiled fixed-value bytes, one per template token.
    pub masked_val: Vec<u8>,
}

impl Clone for MidiCommand {
    fn clone(&self) -> (r: Self)
        ensures
            r.name == self.name,
            r.midi == self.midi,
            r.parameters@ == self.parameters@,
            r.aliases@ == self.aliases@,
            r.mask@ == self.mask@,
            r.masked_val@ == self.masked_val@,
    {
        let r = MidiCommand {
            name: self.name.clone(),
            midi: self.midi.clone(),
            parameters: self.parameters.clone(),
            aliases: self.aliases.clone(),
            mask: self.mask.clone(),
            masked_val: self.masked_val.clone(),
        };
        proof {
            assert forall|i: int| 0 <= i < self.parameters@.len() implies r.parameters@[i]
                == self.parameters@[i] by {}
            assert(r.parameters@ =~= self.parameters@);
            assert forall|i: int| 0 <= i < self.aliases@.len() implies r.aliases@[i]
                == self.aliases@[i] by {}
            assert(r.aliases@ =~= self.aliases@);
            assert(r.mask@ =~= self.mask@);
            assert(r.masked_val@ =~= self.masked_val@);
        }
        r
    }
}

impl MidiCommand {
    /// A codec with the given name and everything else empty; the template
    /// and parameters are filled in afterwards.
    pub fn new(name: String) -> (r: MidiCommand)
        ensures
            r.name == name,
            r.midi@ == Seq::<char>::empty(),
            r.parameters@ == Seq::<MidiParameter>::empty(),
            r.aliases@ == Seq::<String>::empty(),
            r.mask@ == Seq::<u8>::empty(),
            r.masked_val@ == Seq::<u8>::empty(),
    {
        MidiCommand {
            name,
            midi: String::new(),
            parameters: Vec::new(),
            aliases: Vec::new(),
            mask: Vec::new(),
            masked_val: Vec::new(),
        }
    }

    /// Appends a parameter declaration; declaration order fixes the
    /// positional argument order of `generate`.
    pub fn add_parameter(&mut self, p: MidiParameter)
        ensures
            final(self).parameters@ == old(self).parameters@.push(p),
            final(self).name == old(self).name,
            final(self).midi == old(self).midi,
            final(self).aliases == old(self).aliases,
            final(self).mask == old(self).mask,
            final(self).masked_val == old(self).masked_val,
    {
        self.parameters.push(p);
    }

    /// Appends every space-separated word of `values`, trimmed, as an alias.
    pub fn add_aliases(&mut self, values: String)
        ensures
            final(self).aliases.deep_view() == old(self).aliases.deep_view() + spec_split(
                values@,
                ' ',
            ).map_values(|t: Seq<char>| spec_trim(t)),
            final(self).name == old(self).name,
            final(self).midi == old(self).midi,
            final(self).parameters == old(self).parameters,
            final(self).mask == old(self).mask,
            final(self).masked_val == old(self).masked_val,
    {
        let parts = split_char(values.as_str(), ' ');
        let ghost target = spec_split(values@, ' ').map_values(|t: Seq<char>| spec_trim(t));
        let n = parts.len();
        let mut i: usize = 0;
        proof {
            assert(parts.deep_view().len() == parts@.len());
        }
        while i < n
            invariant
                parts.deep_view() == spec_split(values@, ' '),
                target == spec_split(values@, ' ').map_values(|t: Seq<char>| spec_trim(t)),
                n == parts@.len(),
                i <= n,
                self.aliases.deep_view() =~= old(self).aliases.deep_view() + target.take(
                    i as int,
                ),
                self.name == old(self).name,
                self.midi == old(self).midi,
                self.parameters == old(self).parameters,
                self.mask == old(self).mask,
                self.masked_val == old(self).masked_val,
            decreases n - i,
        {
            let t = trim(parts[i].as_str());
            proof {
                assert(parts.deep_view()[i as int] == parts@[i as int]@);
                assert(target[i as int] == spec_trim(parts@[i as int]@));
            }
            let ghost prev = self.aliases.deep_view();
            self.aliases.push(t);
            proof {
                assert(self.aliases.deep_view() =~= prev.push(t@));
                assert(prev.push(t@) =~= old(self).aliases.deep_view() + target.take(
                    i as int + 1,
                ));
            }
            i += 1;
        }
        proof {
            assert(target.take(n as int) =~= target);
        }
    }

    /// Appends every string of `values`, trimmed, as an alias.
    pub fn add_aliases_list(&mut self, values: &[String])
        ensures
            final(self).aliases.deep_view() == old(self).aliases.deep_view()
                + values@.map_values(|s: String| spec_trim(s@)),
            final(self).name == old(self).name,
            final(self).midi == old(self).midi,
            final(self).parameters == old(self).parameters,
            final(self).mask == old(self).mask,
            final(self).masked_val == old(self).masked_val,
    {
        let ghost target = values@.map_values(|s: String| spec_trim(s@));
        let n = values.len();
        let mut i: usize = 0;
        while i < n
            invariant
                target == values@.map_values(|s: String| spec_trim(s@)),
                n == values@.len(),
                i <= n,
                self.aliases.deep_view() =~= old(self).aliases.deep_view() + target.take(
                    i as int,
                ),
                self.name == old(self).name,
                self.midi == old(self).midi,
                self.parameters == old(self).parameters,
                self.mask == old(self).mask,
                self.masked_val == old(self).masked_val,
            decreases n - i,
        {
            let t = trim(values[i].as_str());
            let ghost prev = self.aliases.deep_view();
            self.aliases.push(t);
            proof {
                assert(self.aliases.deep_view() =~= prev.push(t@));
                assert(prev.push(t@) =~= old(self).aliases.deep_view() + target.take(
                    i as int + 1,
                ));
            }
            i += 1;
        }
        proof {
            assert(target.take(n as int) =~= target);
        }
    }

    /// Mask byte of one template token.
    pub fn maskify_byte(s: &str) -> (r: u8)
        ensures
            r == token_mask(s@),
    {
        let n = s.unicode_len();
        if n == 1 {
            if hex_digit(s.get_char(0)) {
                0xFF
            } else {
                0x00
            }
        } else if n == 2 {
            let hi: u8 = if hex_digit(s.get_char(0)) {
                0xF0
            } else {
                0
            };
            let lo: u8 = if hex_digit(s.get_char(1)) {
                0x0F
            } else {
                0
            };
            hi + lo
        } else {
            0x00
        }
    }

    /// Fixed-value byte of one template token.
    pub fn destringify_byte(s: &str) -> (r: u8)
        ensures
            r == token_val(s@),
    {
        let n = s.unicode_len();
        if n == 1 {
            let c = s.get_char(0);
            if hex_digit(c) {
                hex_digit_val(c)
            } else {
                0x00
            }
        } else if n == 2 {
            let c0 = s.get_char(0);
            let c1 = s.get_char(1);
            let hi: u8 = if hex_digit(c0) {
                hex_digit_val(c0)
            } else {
                0
            };
            let lo: u8 = if hex_digit(c1) {
                hex_digit_val(c1)
            } else {
                0
            };
            hi * 16 + lo
        } else {
            0x00
        }
    }

    /// Mask bytes of a template, one per space-separated token.
    pub fn maskify(code: &str) -> (r: Vec<u8>)
        ensures
            r@ == spec_split(code@, ' ').map_values(|t: Seq<char>| token_mask(t)),
    {
        let toks = split_char(code, ' ');
        let n = toks.len();
        let mut out: Vec<u8> = Vec::new();
        let mut i: usize = 0;
        proof {
            assert(toks.deep_view().len() == toks@.len());
        }
        while i < n
            invariant
                toks.deep_view() == spec_split(code@, ' '),
                n == toks@.len(),
                i <= n,
                out@.len() == i,
                forall|k: int| 0 <= k < i ==> out@[k] == token_mask(toks.deep_view()[k]),
            decreases n - i,
        {
            proof {
                assert(toks.deep_view()[i as int] == toks@[i as int]@);
            }
            let b = Self::maskify_byte(toks[i].as_str());
            out.push(b);
            i += 1;
        }
        proof {
            assert(out@ =~= spec_split(code@, ' ').map_values(|t: Seq<char>| token_mask(t)));
        }
        out
    }

    /// Fixed-value bytes of a template, one per space-separated token.
    pub fn destringify(code: &str) -> (r: Vec<u8>)
        ensures
            r@ == spec_split(code@, ' ').map_values(|t: Seq<char>| token_val(t)),
    {
        let toks = split_char(code, ' ');
        let n = toks.len();
        let mut out: Vec<u8> = Vec::new();
        let mut i: usize = 0;
        proof {
            assert(toks.deep_view().len() == toks@.len());
        }
        while i < n
            invariant
                toks.deep_view() == spec_split(code@, ' '),
                n == toks@.len(),
                i <= n,
                out@.len() == i,
                forall|k: int| 0 <= k < i ==> out@[k] == token_val(toks.deep_view()[k]),
            decreases n - i,
        {
            proof {
                assert(toks.deep_view()[i as int] == toks@[i as int]@);
            }
            let b = Self::destringify_byte(toks[i].as_str());
            out.push(b);
            i += 1;
        }
        proof {
            assert(out@ =~= spec_split(code@, ' ').map_values(|t: Seq<char>| token_val(t)));
        }
        out
    }

    /// Compiles the template text into the mask and fixed-value arrays.
    pub fn compile(&mut self)
        ensures
            final(self).mask@ == spec_split(old(self).midi@, ' ').map_values(
                |t: Seq<char>| token_mask(t),
            ),
            final(self).masked_val@ == spec_split(old(self).midi@, ' ').map_values(
                |t: Seq<char>| token_val(t),
            ),
            final(self).name == old(self).name,
            final(self).midi == old(self).midi,
            final(self).parameters == old(self).parameters,
            final(self).aliases == old(self).aliases,
    {
        self.mask = Self::maskify(self.midi.as_str());
        self.masked_val = Self::destringify(self.midi.as_str());
    }

    /// Substitutes each pair's first component by its second, in the given
    /// order, throughout the template text.
    pub fn generate_map(&self, values: &Vec<(String, String)>) -> (r: String)
        ensures
            r@ == spec_subst(
                self.midi@,
                values@.map_values(|p: (String, String)| (p.0@, p.1@)),
            ),
    {
        let ghost pairs = values@.map_values(|p: (String, String)| (p.0@, p.1@));
        let mut cur: String = self.midi.clone();
        let n = values.len();
        let mut i: usize = 0;
        proof {
            assert(pairs.skip(0) =~= pairs);
        }
        while i < n
            invariant
                pairs == values@.map_values(|p: (String, String)| (p.0@, p.1@)),
                n == values@.len(),
                i <= n,
                spec_subst(self.midi@, pairs) == spec_subst(cur@, pairs.skip(i as int)),
            decreases n - i,
        {
            proof {
                assert(pairs.skip(i as int)[0] == pairs[i as int]);
                assert(pairs.skip(i as int).drop_first() =~= pairs.skip(i as int + 1));
            }
            let newcur = replace_str(cur.as_str(), values[i].0.as_str(), values[i].1.as_str());
            cur = newcur;
            i += 1;
        }
        proof {
            assert(pairs.skip(n as int) =~= Seq::<(Seq<char>, Seq<char>)>::empty());
        }
        cur
    }

    /// Renders each value at its parameter's width, in declaration order,
    /// and substitutes every parameter key by its rendered text.  Fails
    /// when the value count differs from the parameter count, or when a
    /// value does not fit its parameter's width; no partial output is
    /// produced.
    pub fn generate(&self, values: &[usize]) -> (r: Result<String, CodecError>)
        ensures
            values@.len() != self.parameters@.len() ==> r == Err::<String, CodecError>(
                CodecError::ArityMismatch,
            ),
            values@.len() == self.parameters@.len() && !all_values_fit(self.parameters@, values@)
                ==> r == Err::<String, CodecError>(CodecError::ValueTooLarge),
            values@.len() == self.parameters@.len() && all_values_fit(self.parameters@, values@)
                ==> (r matches Ok(t) && t@ == spec_subst(
                self.midi@,
                rendered_pairs(self.parameters@, values@),
            )),
    {
        let n = self.parameters.len();
        if values.len() != n {
            return Err(CodecError::ArityMismatch);
        }
        let mut i: usize = 0;
        while i < n
            invariant
                n == self.parameters@.len(),
                values@.len() == n,
                i <= n,
                forall|k: int|
                    0 <= k < i ==> (values@[k] as nat) < pow16(self.parameters@[k].size as nat),
            decreases n - i,
        {
            if !value_fits(values[i], self.parameters[i].size) {
                proof {
                    assert(!all_values_fit(self.parameters@, values@));
                }
                return Err(CodecError::ValueTooLarge);
            }
            i += 1;
        }
        let mut pairs: Vec<(String, String)> = Vec::new();
        let mut j: usize = 0;
        while j < n
            invariant
                n == self.parameters@.len(),
                values@.len() == n,
                all_values_fit(self.parameters@, values@),
                j <= n,
                pairs@.len() == j,
                forall|k: int|
                    #![trigger pairs@[k]]
                    0 <= k < j ==> pairs@[k].0@ == self.parameters@[k].key@ && pairs@[k].1@
                        == spec_render(values@[k] as nat, self.parameters@[k].size as nat),
            decreases n - j,
        {
            let key = self.parameters[j].key.clone();
            let rendered = hex_render(values[j], self.parameters[j].size);
            let ghost prev = pairs@;
            pairs.push((key, rendered));
            proof {
                assert(pairs@ == prev.push((key, rendered)));
                assert(pairs@[j as int].0 == key);
                assert(pairs@[j as int].1 == rendered);
                assert(key@ == self.parameters@[j as int].key@);
                assert(rendered@ == spec_render(
                    values@[j as int] as nat,
                    self.parameters@[j as int].size as nat,
                ));
                assert forall|k: int| 0 <= k < j + 1 implies #[trigger] pairs@[k].0@
                    == self.parameters@[k].key@ && pairs@[k].1@ == spec_render(
                    values@[k] as nat,
                    self.parameters@[k].size as nat,
                ) by {
                    if k < j {
                        assert(pairs@[k] == prev[k]);
                    } else {
                        assert(pairs@[k].0 == key);
                        assert(pairs@[k].1 == rendered);
                    }
                }
            }
            j += 1;
        }
        proof {
            assert(pairs@.map_values(|p: (String, String)| (p.0@, p.1@)) =~= rendered_pairs(
                self.parameters@,
                values@,
            ));
        }
        Ok(self.generate_map(&pairs))
    }

    /// `generate`, with the substituted text converted to bytes; text left
    /// holding non-hexadecimal characters is reported, not converted.
    pub fn generate_bytes(&self, values: &[usize]) -> (r: Result<Vec<u8>, CodecError>)
        ensures
            ({
                let subst = spec_subst(self.midi@, rendered_pairs(self.parameters@, values@));
                &&& (values@.len() != self.parameters@.len() ==> r == Err::<Vec<u8>, CodecError>(
                    CodecError::ArityMismatch,
                ))
                &&& (values@.len() == self.parameters@.len() && !all_values_fit(
                    self.parameters@,
                    values@,
                ) ==> r == Err::<Vec<u8>, CodecError>(CodecError::ValueTooLarge))
                &&& (values@.len() == self.parameters@.len() && all_values_fit(
                    self.parameters@,
                    values@,
                ) && spaced_hex(subst) ==> (r matches Ok(b) && b@ == bytes_of_hex(
                    remove_spaces(subst),
                )))
                &&& (values@.len() == self.parameters@.len() && all_values_fit(
                    self.parameters@,
                    values@,
                ) && !spaced_hex(subst) ==> r == Err::<Vec<u8>, CodecError>(
                    CodecError::UnresolvedPlaceholder,
                ))
            }),
    {
        match self.generate(values) {
            Err(e) => Err(e),
            Ok(text) => match try_stob(text.as_str()) {
                Some(b) => Ok(b),
                None => Err(CodecError::UnresolvedPlaceholder),
            },
        }
    }

    /// `generate_map`, with the substituted text converted to bytes; text
    /// left holding non-hexadecimal characters is reported, not converted.
    pub fn generate_bytes_map(&self, values: &Vec<(String, String)>) -> (r: Result<
        Vec<u8>,
        CodecError,
    >)
        ensures
            ({
                let subst = spec_subst(
                    self.midi@,
                    values@.map_values(|p: (String, String)| (p.0@, p.1@)),
                );
                &&& (spaced_hex(subst) ==> (r matches Ok(b) && b@ == bytes_of_hex(
                    remove_spaces(subst),
                )))
                &&& (!spaced_hex(subst) ==> r == Err::<Vec<u8>, CodecError>(
                    CodecError::UnresolvedPlaceholder,
                ))
            }),
    {
        let text = self.generate_map(values);
        match try_stob(text.as_str()) {
            Some(b) => Ok(b),
            None => Err(CodecError::UnresolvedPlaceholder),
        }
    }

    /// True exactly when `data` has the compiled length and every byte
    /// agrees with the fixed value on the masked nibbles; in particular
    /// false whenever `data.len()` differs from the template's byte count.
    pub fn matches(&self, data: &[u8]) -> (r: bool)
        requires
            self.mask@.len() == self.masked_val@.len(),
        ensures
            r == spec_matches(data@, self.mask@, self.masked_val@),
    {
        let n = self.masked_val.len();
        if data.len() != n {
            return false;
        }
        let mut i: usize = 0;
        while i < n
            invariant
                n == self.masked_val@.len(),
                self.mask@.len() == n,
                data@.len() == n,
                i <= n,
                forall|k: int| 0 <= k < i ==> (data@[k] & self.mask@[k]) == self.masked_val@[k],
            decreases n - i,
        {
            if (data[i] & self.mask[i]) != self.masked_val[i] {
                return false;
            }
            i += 1;
        }
        true
    }

    /// The variable bytes of a sequence the codec matches: one byte, fixed
    /// nibbles cleared, for every position whose mask is not `0xFF`.
    pub fn extract_values(&self, data: &[u8]) -> (r: Vec<u8>)
        requires
            data@.len() == self.mask@.len(),
        ensures
            r@ == spec_extract(data@, self.mask@),
    {
        let n = data.len();
        let mut out: Vec<u8> = Vec::new();
        let mut i: usize = 0;
        proof {
            assert(data@.take(0) =~= Seq::<u8>::empty());
            assert(self.mask@.take(0) =~= Seq::<u8>::empty());
        }
        while i < n
            invariant
                n == data@.len(),
                self.mask@.len() == n,
                i <= n,
                out@ == spec_extract(data@.take(i as int), self.mask@.take(i as int)),
            decreases n - i,
        {
            proof {
                let d = data@.take(i as int + 1);
                let m = self.mask@.take(i as int + 1);
                assert(d.drop_last() =~= data@.take(i as int));
                assert(m.drop_last() =~= self.mask@.take(i as int));
                assert(d.last() == data@[i as int]);
                assert(m.last() == self.mask@[i as int]);
            }
            let mb = self.mask[i];
            if mb != 0xFF {
                out.push(data[i] & !mb);
            }
            i += 1;
        }
        proof {
            assert(data@.take(n as int) =~= data@);
            assert(self.mask@.take(n as int) =~= self.mask@);
        }
        out
    }
}

} // verus!
