//! The round-trip law of the codec: a codec compiled from a template whose
//! placeholders fill whole hexadecimal positions generates byte sequences
//! that it matches, and extraction recovers every substituted value.

use vstd::prelude::*;

use crate::hexchars::{hex_char_of, hex_val, is_hex_digit, pow16, spec_render};
use crate::midi_command::MidiParameter;
use crate::strutil::{remove_spaces, spec_replace, spec_split};

verus! {

/// One template token, structurally: two fixed hexadecimal digits, a
/// placeholder standing for a whole byte (its parameter is two digits
/// wide), or a fixed high nibble followed by a one-digit placeholder.
pub ghost enum Tok {
    Hex(char, char),
    Key(int),
    Mixed(char, int),
}

/// How many tokens use parameter `i`.
pub open spec fn occ(ts: Seq<Tok>, i: int) -> nat
    decreases ts.len(),
{
    if ts.len() == 0 {
        0
    } else {
        (match ts[0] {
            Tok::Hex(_, _) => 0nat,
            Tok::Key(j) => if j == i {
                1nat
            } else {
                0nat
            },
            Tok::Mixed(_, j) => if j == i {
                1nat
            } else {
                0nat
            },
        }) + occ(ts.drop_first(), i)
    }
}

/// A well-formed token: fixed characters are hexadecimal digits, and a
/// placeholder names a parameter whose key is a single character that is
/// neither a hexadecimal digit nor a space, with width two for a whole
/// byte and width one beside a fixed nibble.
pub open spec fn wf_tok(t: Tok, params: Seq<MidiParameter>) -> bool {
    match t {
        Tok::Hex(a, b) => is_hex_digit(a) && is_hex_digit(b),
        Tok::Key(i) => 0 <= i < params.len() && params[i].key@.len() == 1 && !is_hex_digit(
            params[i].key@[0],
        ) && params[i].key@[0] != ' ' && params[i].size == 2,
        Tok::Mixed(h, i) => is_hex_digit(h) && 0 <= i < params.len() && params[i].key@.len() == 1
            && !is_hex_digit(params[i].key@[0]) && params[i].key@[0] != ' ' && params[i].size == 1,
    }
}

/// A template in which every token is well-formed, every parameter is used
/// by exactly one token, and parameter keys are pairwise distinct.
pub open spec fn wf_template(ts: Seq<Tok>, params: Seq<MidiParameter>) -> bool {
    &&& ts.len() >= 1
    &&& (forall|x: int| 0 <= x < ts.len() ==> wf_tok(#[trigger] ts[x], params))
    &&& (forall|i: int| 0 <= i < params.len() ==> occ(ts, i) == 1)
    &&& (forall|i: int, j: int|
        0 <= i < j < params.len() ==> params[i].key@ != params[j].key@)
}

/// The text of one token after substitution of parameters below `n`.
pub open spec fn tok_stage(t: Tok, params: Seq<MidiParameter>, values: Seq<usize>, n: int) -> Seq<
    char,
> {
    match t {
        Tok::Hex(a, b) => seq![a, b],
        Tok::Key(i) => if i < n {
            spec_render(values[i] as nat, 2)
        } else {
            params[i].key@
        },
        Tok::Mixed(h, i) => if i < n {
            seq![h] + spec_render(values[i] as nat, 1)
        } else {
            seq![h] + params[i].key@
        },
    }
}

/// The whole template text after substitution of parameters below `n`.
pub open spec fn join_stage(
    ts: Seq<Tok>,
    params: Seq<MidiParameter>,
    values: Seq<usize>,
    n: int,
) -> Seq<char>
    decreases ts.len(),
{
    if ts.len() == 0 {
        Seq::empty()
    } else if ts.len() == 1 {
        tok_stage(ts[0], params, values, n)
    } else {
        tok_stage(ts[0], params, values, n) + seq![' '] + join_stage(
            ts.drop_first(),
            params,
            values,
            n,
        )
    }
}

/// The byte a fully substituted token denotes.
pub open spec fn tok_byte(t: Tok, values: Seq<usize>) -> u8 {
    match t {
        Tok::Hex(a, b) => (hex_val(a) * 16 + hex_val(b)) as u8,
        Tok::Key(i) => values[i] as u8,
        Tok::Mixed(h, i) => (hex_val(h) * 16 + values[i]) as u8,
    }
}

/// The bytes a fully substituted template denotes, one per token.
pub open spec fn toks_bytes(ts: Seq<Tok>, values: Seq<usize>) -> Seq<u8>
    decreases ts.len(),
{
    if ts.len() == 0 {
        Seq::empty()
    } else {
        toks_bytes(ts.drop_last(), values).push(tok_byte(ts.last(), values))
    }
}

/// The values packed into the variable positions, one byte per placeholder
/// token, in token order.
pub open spec fn toks_extract(ts: Seq<Tok>, values: Seq<usize>) -> Seq<u8>
    decreases ts.len(),
{
    if ts.len() == 0 {
        Seq::empty()
    } else {
        toks_extract(ts.drop_last(), values) + (match ts.last() {
            Tok::Hex(_, _) => Seq::<u8>::empty(),
            Tok::Key(i) => seq![values[i] as u8],
            Tok::Mixed(_, i) => seq![values[i] as u8],
        })
    }
}

/// Every value fits the width of the token that carries it.
pub open spec fn values_fit(ts: Seq<Tok>, params: Seq<MidiParameter>, values: Seq<usize>) -> bool {
    &&& values.len() == params.len()
    &&& (forall|i: int|
        0 <= i < params.len() ==> (values[i] as nat) < pow16(params[i].size as nat))
}

/// Every character of a rendered value is a hexadecimal digit.
pub proof fn lemma_render_hex(v: nat, w: nat)
    ensures
        forall|k: int| 0 <= k < spec_render(v, w).len() ==> is_hex_digit(
            #[trigger] spec_render(v, w)[k],
        ),
    decreases w,
{
    crate::hexchars::lemma_spec_render_len(v, w);
    if w > 0 {
        lemma_render_hex(v / 16, (w - 1) as nat);
        crate::hexchars::lemma_spec_render_len(v / 16, (w - 1) as nat);
        let r0 = spec_render(v / 16, (w - 1) as nat);
        let c = hex_char_of((v % 16) as u8);
        assert(is_hex_digit(c));
        assert forall|k: int| 0 <= k < spec_render(v, w).len() implies is_hex_digit(
            #[trigger] spec_render(v, w)[k],
        ) by {
            if k < r0.len() {
                assert(spec_render(v, w)[k] == r0[k]);
            } else {
                assert(spec_render(v, w)[k] == c);
            }
        }
    }
}

/// A hexadecimal digit character carries its own value back.
pub proof fn lemma_hex_val_of_char(d: u8)
    requires
        d < 16,
    ensures
        hex_val(hex_char_of(d)) == d,
{
}

/// The two digits of a two-wide rendering recover the value.
pub proof fn lemma_render2_value(v: nat)
    requires
        v < 256,
    ensures
        spec_render(v, 2).len() == 2,
        hex_val(spec_render(v, 2)[0]) * 16 + hex_val(spec_render(v, 2)[1]) == v,
{
    crate::hexchars::lemma_spec_render_len(v, 2);
    let r = spec_render(v, 2);
    assert(r == spec_render(v / 16, 1).push(hex_char_of((v % 16) as u8)));
    assert(spec_render(v / 16, 1) == spec_render(v / 16 / 16, 0).push(
        hex_char_of((v / 16 % 16) as u8),
    ));
    assert(r[0] == hex_char_of((v / 16 % 16) as u8));
    assert(r[1] == hex_char_of((v % 16) as u8));
    assert(v / 16 < 16) by {
        vstd::arithmetic::div_mod::lemma_div_is_ordered(v as int, 255, 16);
    }
    assert(v / 16 % 16 == v / 16) by {
        vstd::arithmetic::div_mod::lemma_small_mod((v / 16) as nat, 16);
    }
    lemma_hex_val_of_char((v / 16) as u8);
    lemma_hex_val_of_char((v % 16) as u8);
    assert(v / 16 * 16 + v % 16 == v) by {
        vstd::arithmetic::div_mod::lemma_fundamental_div_mod(v as int, 16);
    }
}

/// The single digit of a one-wide rendering recovers the value.
pub proof fn lemma_render1_value(v: nat)
    requires
        v < 16,
    ensures
        spec_render(v, 1).len() == 1,
        hex_val(spec_render(v, 1)[0]) == v,
{
    crate::hexchars::lemma_spec_render_len(v, 1);
    assert(spec_render(v, 1) == spec_render(v / 16, 0).push(hex_char_of((v % 16) as u8)));
    assert(v % 16 == v) by {
        vstd::arithmetic::div_mod::lemma_small_mod(v, 16);
    }
    lemma_hex_val_of_char(v as u8);
}

/// Replacing a single character that does not occur leaves `s` unchanged.
proof fn lemma_replace_absent(s: Seq<char>, c: char, to: Seq<char>)
    requires
        forall|k: int| 0 <= k < s.len() ==> s[k] != c,
    ensures
        spec_replace(s, seq![c], to) == s,
    decreases s.len(),
{
    if s.len() >= 1 {
        assert(s.take(1)[0] == s[0]);
        assert(s.take(1) != seq![c]) by {
            assert(s[0] != c);
        }
        assert forall|k: int| 0 <= k < s.skip(1).len() implies s.skip(1)[k] != c by {
            assert(s.skip(1)[k] == s[k + 1]);
        }
        lemma_replace_absent(s.skip(1), c, to);
        assert(seq![s[0]] + s.skip(1) =~= s);
    }
}

/// Replacement passes over a prefix in which the character does not occur.
proof fn lemma_replace_concat(a: Seq<char>, b: Seq<char>, c: char, to: Seq<char>)
    requires
        forall|k: int| 0 <= k < a.len() ==> a[k] != c,
    ensures
        spec_replace(a + b, seq![c], to) == a + spec_replace(b, seq![c], to),
    decreases a.len(),
{
    if a.len() == 0 {
        assert(a + b =~= b);
        assert(a + spec_replace(b, seq![c], to) =~= spec_replace(b, seq![c], to));
    } else {
        let s = a + b;
        assert(s.len() >= 1);
        assert(s[0] == a[0]);
        assert(s.take(1)[0] == s[0]);
        assert(s.take(1) != seq![c]) by {
            assert(s[0] != c);
        }
        assert(s.skip(1) =~= a.drop_first() + b);
        assert forall|k: int| 0 <= k < a.drop_first().len() implies a.drop_first()[k] != c by {
            assert(a.drop_first()[k] == a[k + 1]);
        }
        lemma_replace_concat(a.drop_first(), b, c, to);
        assert(spec_replace(s, seq![c], to) == seq![s[0]] + (a.drop_first() + spec_replace(
            b,
            seq![c],
            to,
        )));
        assert(seq![s[0]] + (a.drop_first() + spec_replace(b, seq![c], to)) =~= a + spec_replace(
            b,
            seq![c],
            to,
        ));
    }
}

/// Replacement at a matching head substitutes there and continues.
proof fn lemma_replace_head(b: Seq<char>, c: char, to: Seq<char>)
    ensures
        spec_replace(seq![c] + b, seq![c], to) == to + spec_replace(b, seq![c], to),
{
    let s = seq![c] + b;
    assert(s.len() >= 1);
    assert(s.take(1) =~= seq![c]);
    assert(s.skip(1) =~= b);
}

} // verus!

verus! {

/// A token not using parameter `n` reads the same at stages `n` and `n+1`.
proof fn lemma_tok_stage_frame(t: Tok, params: Seq<MidiParameter>, values: Seq<usize>, n: int)
    requires
        match t {
            Tok::Hex(_, _) => true,
            Tok::Key(j) => j != n,
            Tok::Mixed(_, j) => j != n,
        },
    ensures
        tok_stage(t, params, values, n) == tok_stage(t, params, values, n + 1),
{
}

/// A sub-template with no token using parameter `n` reads the same at
/// stages `n` and `n+1`.
proof fn lemma_stage_frame(ts: Seq<Tok>, params: Seq<MidiParameter>, values: Seq<usize>, n: int)
    requires
        occ(ts, n) == 0,
    ensures
        join_stage(ts, params, values, n) == join_stage(ts, params, values, n + 1),
    decreases ts.len(),
{
    if ts.len() > 0 {
        lemma_tok_stage_frame(ts[0], params, values, n);
        if ts.len() > 1 {
            lemma_stage_frame(ts.drop_first(), params, values, n);
        }
    }
}

/// No character of a single token's stage-`n` text is the key of the
/// not-yet-substituted parameter `n` when the token does not use `n`.
proof fn lemma_tok_no_key(t: Tok, params: Seq<MidiParameter>, values: Seq<usize>, n: int)
    requires
        0 <= n < params.len(),
        params[n].key@.len() == 1,
        !is_hex_digit(params[n].key@[0]),
        wf_tok(t, params),
        forall|i: int, j: int| 0 <= i < j < params.len() ==> params[i].key@ != params[j].key@,
        match t {
            Tok::Hex(_, _) => true,
            Tok::Key(j) => j != n,
            Tok::Mixed(_, j) => j != n,
        },
    ensures
        forall|k: int| 0 <= k < tok_stage(t, params, values, n).len() ==> #[trigger] tok_stage(
            t,
            params,
            values,
            n,
        )[k] != params[n].key@[0],
{
    let kn = params[n].key@[0];
    match t {
        Tok::Hex(a, b) => {
            assert(tok_stage(t, params, values, n) == seq![a, b]);
        },
        Tok::Key(j) => {
            if j < n {
                lemma_render_hex(values[j] as nat, 2);
            } else {
                assert(params[j].key@ != params[n].key@);
                assert(params[j].key@.len() == 1);
                if params[j].key@[0] == kn {
                    assert(params[j].key@ =~= params[n].key@);
                }
            }
        },
        Tok::Mixed(h, j) => {
            if j < n {
                lemma_render_hex(values[j] as nat, 1);
                let txt = seq![h] + spec_render(values[j] as nat, 1);
                assert forall|k: int| 0 <= k < txt.len() implies #[trigger] txt[k] != kn by {
                    if k == 0 {
                        assert(txt[k] == h);
                    } else {
                        assert(txt[k] == spec_render(values[j] as nat, 1)[k - 1]);
                        assert(is_hex_digit(spec_render(values[j] as nat, 1)[k - 1]));
                    }
                }
            } else {
                assert(params[j].key@ != params[n].key@);
                assert(params[j].key@.len() == 1);
                if params[j].key@[0] == kn {
                    assert(params[j].key@ =~= params[n].key@);
                }
                let txt = seq![h] + params[j].key@;
                assert forall|k: int| 0 <= k < txt.len() implies #[trigger] txt[k] != kn by {
                    if k == 0 {
                        assert(txt[k] == h);
                    } else {
                        assert(txt[k] == params[j].key@[k - 1]);
                    }
                }
            }
        },
    }
}

/// No character of a sub-template's stage-`n` text is the key of
/// parameter `n` when no token of it uses `n`.
proof fn lemma_stage_no_key(ts: Seq<Tok>, params: Seq<MidiParameter>, values: Seq<usize>, n: int)
    requires
        0 <= n < params.len(),
        params[n].key@.len() == 1,
        !is_hex_digit(params[n].key@[0]),
        params[n].key@[0] != ' ',
        forall|x: int| 0 <= x < ts.len() ==> wf_tok(#[trigger] ts[x], params),
        forall|i: int, j: int| 0 <= i < j < params.len() ==> params[i].key@ != params[j].key@,
        occ(ts, n) == 0,
    ensures
        forall|k: int| 0 <= k < join_stage(ts, params, values, n).len() ==> #[trigger] join_stage(
            ts,
            params,
            values,
            n,
        )[k] != params[n].key@[0],
    decreases ts.len(),
{
    let kn = params[n].key@[0];
    if ts.len() == 0 {
    } else if ts.len() == 1 {
        lemma_tok_no_key(ts[0], params, values, n);
    } else {
        lemma_tok_no_key(ts[0], params, values, n);
        assert forall|x: int| 0 <= x < ts.drop_first().len() implies wf_tok(
            #[trigger] ts.drop_first()[x],
            params,
        ) by {
            assert(ts.drop_first()[x] == ts[x + 1]);
        }
        lemma_stage_no_key(ts.drop_first(), params, values, n);
        let head = tok_stage(ts[0], params, values, n);
        let rest = join_stage(ts.drop_first(), params, values, n);
        let whole = head + seq![' '] + rest;
        assert forall|k: int| 0 <= k < whole.len() implies #[trigger] whole[k] != kn by {
            if k < head.len() {
                assert(whole[k] == head[k]);
            } else if k == head.len() {
                assert(whole[k] == ' ');
            } else {
                assert(whole[k] == rest[k - head.len() - 1]);
            }
        }
    }
}

/// Some token uses parameter `n` when the count is positive.
proof fn lemma_occ_exists(ts: Seq<Tok>, n: int)
    requires
        occ(ts, n) >= 1,
    ensures
        exists|x: int|
            0 <= x < ts.len() && match #[trigger] ts[x] {
                Tok::Hex(_, _) => false,
                Tok::Key(j) => j == n,
                Tok::Mixed(_, j) => j == n,
            },
    decreases ts.len(),
{
    if ts.len() > 0 {
        let uses0 = match ts[0] {
            Tok::Hex(_, _) => false,
            Tok::Key(j) => j == n,
            Tok::Mixed(_, j) => j == n,
        };
        if !uses0 {
            lemma_occ_exists(ts.drop_first(), n);
            let x = choose|x: int|
                0 <= x < ts.drop_first().len() && match #[trigger] ts.drop_first()[x] {
                    Tok::Hex(_, _) => false,
                    Tok::Key(j) => j == n,
                    Tok::Mixed(_, j) => j == n,
                };
            assert(ts[x + 1] == ts.drop_first()[x]);
        }
    }
}

/// One substitution step: replacing the key of parameter `n` in the
/// stage-`n` text yields the stage-`n+1` text.
proof fn lemma_subst_step(ts: Seq<Tok>, params: Seq<MidiParameter>, values: Seq<usize>, n: int)
    requires
        0 <= n < params.len(),
        params[n].key@.len() == 1,
        !is_hex_digit(params[n].key@[0]),
        params[n].key@[0] != ' ',
        forall|x: int| 0 <= x < ts.len() ==> wf_tok(#[trigger] ts[x], params),
        forall|i: int, j: int| 0 <= i < j < params.len() ==> params[i].key@ != params[j].key@,
        occ(ts, n) == 1,
    ensures
        spec_replace(
            join_stage(ts, params, values, n),
            params[n].key@,
            spec_render(values[n] as nat, params[n].size as nat),
        ) == join_stage(ts, params, values, n + 1),
    decreases ts.len(),
{
    let kn = params[n].key@[0];
    let rn = spec_render(values[n] as nat, params[n].size as nat);
    assert(params[n].key@ =~= seq![kn]);
    let uses0 = match ts[0] {
        Tok::Hex(_, _) => false,
        Tok::Key(j) => j == n,
        Tok::Mixed(_, j) => j == n,
    };
    assert forall|x: int| 0 <= x < ts.drop_first().len() implies wf_tok(
        #[trigger] ts.drop_first()[x],
        params,
    ) by {
        assert(ts.drop_first()[x] == ts[x + 1]);
    }
    if uses0 {
        assert(occ(ts.drop_first(), n) == 0);
        lemma_stage_frame(ts.drop_first(), params, values, n);
        lemma_stage_no_key(ts.drop_first(), params, values, n);
        let rest = join_stage(ts.drop_first(), params, values, n);
        match ts[0] {
            Tok::Key(j) => {
                assert(j == n);
                assert(params[n].size == 2);
                assert(tok_stage(ts[0], params, values, n) == params[n].key@);
                assert(tok_stage(ts[0], params, values, n + 1) == spec_render(
                    values[n] as nat,
                    2,
                ));
                if ts.len() == 1 {
                    lemma_replace_head(Seq::empty(), kn, rn);
                    assert(seq![kn] + Seq::<char>::empty() =~= seq![kn]);
                    assert(spec_replace(Seq::empty(), seq![kn], rn) == Seq::<char>::empty());
                    assert(rn + Seq::<char>::empty() =~= rn);
                } else {
                    let tail = seq![' '] + rest;
                    assert(join_stage(ts, params, values, n) =~= seq![kn] + tail);
                    lemma_replace_head(tail, kn, rn);
                    assert forall|k: int| 0 <= k < tail.len() implies tail[k] != kn by {
                        if k == 0 {
                            assert(tail[k] == ' ');
                        } else {
                            assert(tail[k] == rest[k - 1]);
                        }
                    }
                    lemma_replace_absent(tail, kn, rn);
                    assert(rn + tail =~= join_stage(ts, params, values, n + 1));
                }
            },
            Tok::Mixed(h, j) => {
                assert(j == n);
                assert(params[n].size == 1);
                assert(tok_stage(ts[0], params, values, n) =~= seq![h] + seq![kn]);
                if ts.len() == 1 {
                    assert(join_stage(ts, params, values, n) =~= seq![h] + (seq![kn]
                        + Seq::<char>::empty()));
                    lemma_replace_concat(seq![h], seq![kn] + Seq::<char>::empty(), kn, rn);
                    lemma_replace_head(Seq::empty(), kn, rn);
                    assert(spec_replace(Seq::empty(), seq![kn], rn) == Seq::<char>::empty());
                    assert(seq![h] + (rn + Seq::<char>::empty()) =~= join_stage(
                        ts,
                        params,
                        values,
                        n + 1,
                    ));
                } else {
                    let tail = seq![' '] + rest;
                    assert(join_stage(ts, params, values, n) =~= seq![h] + (seq![kn] + tail));
                    lemma_replace_concat(seq![h], seq![kn] + tail, kn, rn);
                    lemma_replace_head(tail, kn, rn);
                    assert forall|k: int| 0 <= k < tail.len() implies tail[k] != kn by {
                        if k == 0 {
                            assert(tail[k] == ' ');
                        } else {
                            assert(tail[k] == rest[k - 1]);
                        }
                    }
                    lemma_replace_absent(tail, kn, rn);
                    assert(seq![h] + (rn + tail) =~= join_stage(ts, params, values, n + 1));
                }
            },
            Tok::Hex(_, _) => {
                assert(false);
            },
        }
    } else {
        lemma_tok_no_key(ts[0], params, values, n);
        lemma_tok_stage_frame(ts[0], params, values, n);
        let head = tok_stage(ts[0], params, values, n);
        if ts.len() == 1 {
            assert(occ(ts.drop_first(), n) == 0);
            assert(occ(ts, n) == 0);
            assert(false);
        } else {
            assert(occ(ts.drop_first(), n) == 1);
            lemma_subst_step(ts.drop_first(), params, values, n);
            let rest = join_stage(ts.drop_first(), params, values, n);
            let pre = head + seq![' '];
            assert forall|k: int| 0 <= k < pre.len() implies pre[k] != kn by {
                if k < head.len() {
                    assert(pre[k] == head[k]);
                } else {
                    assert(pre[k] == ' ');
                }
            }
            lemma_replace_concat(pre, rest, kn, rn);
            assert(join_stage(ts, params, values, n) =~= pre + rest);
            assert(pre + spec_replace(rest, seq![kn], rn) =~= join_stage(
                ts,
                params,
                values,
                n + 1,
            ));
        }
    }
}

} // verus!

verus! {

/// Splitting distributes over concatenation at an explicit separator.
proof fn lemma_split_concat(x: Seq<char>, y: Seq<char>, sep: char)
    ensures
        spec_split(x + seq![sep] + y, sep) == spec_split(x, sep) + spec_split(y, sep),
    decreases y.len(),
{
    if y.len() == 0 {
        assert(x + seq![sep] + y =~= x + seq![sep]);
        let s = x + seq![sep];
        assert(s.last() == sep);
        assert(s.drop_last() =~= x);
        assert(spec_split(s, sep) == spec_split(x, sep).push(Seq::empty()));
        assert(spec_split(y, sep) == seq![Seq::<char>::empty()]);
        assert(spec_split(x, sep).push(Seq::<char>::empty()) =~= spec_split(x, sep) + seq![
            Seq::<char>::empty(),
        ]);
    } else {
        let s = x + seq![sep] + y;
        assert(s.last() == y.last());
        assert(s.drop_last() =~= x + seq![sep] + y.drop_last());
        lemma_split_concat(x, y.drop_last(), sep);
        crate::strutil::lemma_spec_split_len(y.drop_last(), sep);
        crate::strutil::lemma_spec_split_len(x, sep);
        let r1 = spec_split(x, sep);
        let r2 = spec_split(y.drop_last(), sep);
        if y.last() == sep {
            assert(spec_split(s, sep) == (r1 + r2).push(Seq::empty()));
            assert(spec_split(y, sep) == r2.push(Seq::empty()));
            assert((r1 + r2).push(Seq::<char>::empty()) =~= r1 + r2.push(Seq::<char>::empty()));
        } else {
            let r = r1 + r2;
            assert(spec_split(s, sep) == r.update(r.len() - 1, r.last().push(y.last())));
            assert(spec_split(y, sep) == r2.update(r2.len() - 1, r2.last().push(y.last())));
            assert(r.last() == r2.last());
            assert(r.update(r.len() - 1, r.last().push(y.last())) =~= r1 + r2.update(
                r2.len() - 1,
                r2.last().push(y.last()),
            ));
        }
    }
}

/// Splitting a text free of the separator yields that text alone.
proof fn lemma_split_nosep(t: Seq<char>, sep: char)
    requires
        forall|k: int| 0 <= k < t.len() ==> t[k] != sep,
    ensures
        spec_split(t, sep) == seq![t],
    decreases t.len(),
{
    if t.len() == 0 {
        assert(t =~= Seq::<char>::empty());
        assert(spec_split(t, sep) == seq![Seq::<char>::empty()]);
        assert(seq![Seq::<char>::empty()][0] == t);
        assert(seq![Seq::<char>::empty()] =~= seq![t]);
    } else {
        assert forall|k: int| 0 <= k < t.drop_last().len() implies t.drop_last()[k] != sep by {
            assert(t.drop_last()[k] == t[k]);
        }
        lemma_split_nosep(t.drop_last(), sep);
        assert(t.last() != sep);
        let r = seq![t.drop_last()];
        assert(spec_split(t, sep) == r.update(0, r[0].push(t.last())));
        assert(r.update(0, r[0].push(t.last())) =~= seq![t.drop_last().push(t.last())]);
        assert(t.drop_last().push(t.last()) =~= t);
    }
}

/// No character of a token's stage text is a space.
proof fn lemma_tok_stage_nospace(t: Tok, params: Seq<MidiParameter>, values: Seq<usize>, n: int)
    requires
        wf_tok(t, params),
    ensures
        tok_stage(t, params, values, n).len() >= 1,
        forall|k: int| 0 <= k < tok_stage(t, params, values, n).len() ==> #[trigger] tok_stage(
            t,
            params,
            values,
            n,
        )[k] != ' ',
{
    match t {
        Tok::Hex(a, b) => {
        },
        Tok::Key(i) => {
            if i < n {
                crate::hexchars::lemma_spec_render_len(values[i] as nat, 2);
                lemma_render_hex(values[i] as nat, 2);
            }
        },
        Tok::Mixed(h, i) => {
            if i < n {
                crate::hexchars::lemma_spec_render_len(values[i] as nat, 1);
                lemma_render_hex(values[i] as nat, 1);
                let txt = seq![h] + spec_render(values[i] as nat, 1);
                assert forall|k: int| 0 <= k < txt.len() implies #[trigger] txt[k] != ' ' by {
                    if k == 0 {
                        assert(txt[k] == h);
                    } else {
                        assert(txt[k] == spec_render(values[i] as nat, 1)[k - 1]);
                        assert(is_hex_digit(txt[k]));
                    }
                }
            } else {
                let txt = seq![h] + params[i].key@;
                assert forall|k: int| 0 <= k < txt.len() implies #[trigger] txt[k] != ' ' by {
                    if k == 0 {
                        assert(txt[k] == h);
                    } else {
                        assert(txt[k] == params[i].key@[k - 1]);
                    }
                }
            }
        },
    }
}

/// Splitting a stage text at spaces recovers the token stage texts.
proof fn lemma_split_join(ts: Seq<Tok>, params: Seq<MidiParameter>, values: Seq<usize>, n: int)
    requires
        ts.len() >= 1,
        forall|x: int| 0 <= x < ts.len() ==> wf_tok(#[trigger] ts[x], params),
    ensures
        spec_split(join_stage(ts, params, values, n), ' ') == Seq::new(
            ts.len(),
            |x: int| tok_stage(ts[x], params, values, n),
        ),
    decreases ts.len(),
{
    lemma_tok_stage_nospace(ts[0], params, values, n);
    if ts.len() == 1 {
        lemma_split_nosep(tok_stage(ts[0], params, values, n), ' ');
        assert(seq![tok_stage(ts[0], params, values, n)] =~= Seq::new(
            ts.len(),
            |x: int| tok_stage(ts[x], params, values, n),
        ));
    } else {
        assert forall|x: int| 0 <= x < ts.drop_first().len() implies wf_tok(
            #[trigger] ts.drop_first()[x],
            params,
        ) by {
            assert(ts.drop_first()[x] == ts[x + 1]);
        }
        lemma_split_join(ts.drop_first(), params, values, n);
        lemma_split_concat(
            tok_stage(ts[0], params, values, n),
            join_stage(ts.drop_first(), params, values, n),
            ' ',
        );
        lemma_split_nosep(tok_stage(ts[0], params, values, n), ' ');
        assert(join_stage(ts, params, values, n) =~= tok_stage(ts[0], params, values, n) + seq![
            ' ',
        ] + join_stage(ts.drop_first(), params, values, n));
        assert(seq![tok_stage(ts[0], params, values, n)] + Seq::new(
            ts.drop_first().len(),
            |x: int| tok_stage(ts.drop_first()[x], params, values, n),
        ) =~= Seq::new(ts.len(), |x: int| tok_stage(ts[x], params, values, n)));
    }
}

/// Removing spaces distributes over concatenation.
proof fn lemma_rs_concat(a: Seq<char>, b: Seq<char>)
    ensures
        remove_spaces(a + b) == remove_spaces(a) + remove_spaces(b),
    decreases b.len(),
{
    if b.len() == 0 {
        assert(a + b =~= a);
        assert(remove_spaces(b) == Seq::<char>::empty());
        assert(remove_spaces(a) + Seq::<char>::empty() =~= remove_spaces(a));
    } else {
        let s = a + b;
        assert(s.last() == b.last());
        assert(s.drop_last() =~= a + b.drop_last());
        lemma_rs_concat(a, b.drop_last());
        if b.last() == ' ' {
        } else {
            assert((remove_spaces(a) + remove_spaces(b.drop_last())).push(b.last())
                =~= remove_spaces(a) + remove_spaces(b.drop_last()).push(b.last()));
        }
    }
}

/// Removing spaces from space-free text leaves it unchanged.
proof fn lemma_rs_nospace(t: Seq<char>)
    requires
        forall|k: int| 0 <= k < t.len() ==> t[k] != ' ',
    ensures
        remove_spaces(t) == t,
    decreases t.len(),
{
    if t.len() > 0 {
        assert forall|k: int| 0 <= k < t.drop_last().len() implies t.drop_last()[k] != ' ' by {
            assert(t.drop_last()[k] == t[k]);
        }
        lemma_rs_nospace(t.drop_last());
        assert(t.last() != ' ');
        assert(t.drop_last().push(t.last()) =~= t);
    }
}

/// The fully substituted token texts, concatenated without spaces.
pub open spec fn flat_out(ts: Seq<Tok>, params: Seq<MidiParameter>, values: Seq<usize>) -> Seq<
    char,
>
    decreases ts.len(),
{
    if ts.len() == 0 {
        Seq::empty()
    } else {
        tok_stage(ts[0], params, values, params.len() as int) + flat_out(
            ts.drop_first(),
            params,
            values,
        )
    }
}

/// Removing the spaces of the fully substituted template leaves the
/// concatenation of the substituted token texts.
proof fn lemma_rs_join(ts: Seq<Tok>, params: Seq<MidiParameter>, values: Seq<usize>)
    requires
        ts.len() >= 1,
        forall|x: int| 0 <= x < ts.len() ==> wf_tok(#[trigger] ts[x], params),
    ensures
        remove_spaces(join_stage(ts, params, values, params.len() as int)) == flat_out(
            ts,
            params,
            values,
        ),
    decreases ts.len(),
{
    let m = params.len() as int;
    lemma_tok_stage_nospace(ts[0], params, values, m);
    lemma_rs_nospace(tok_stage(ts[0], params, values, m));
    if ts.len() == 1 {
        assert(ts.drop_first().len() == 0);
        assert(flat_out(ts.drop_first(), params, values) == Seq::<char>::empty());
        assert(flat_out(ts, params, values) =~= tok_stage(ts[0], params, values, m));
    } else {
        assert forall|x: int| 0 <= x < ts.drop_first().len() implies wf_tok(
            #[trigger] ts.drop_first()[x],
            params,
        ) by {
            assert(ts.drop_first()[x] == ts[x + 1]);
        }
        lemma_rs_join(ts.drop_first(), params, values);
        let head = tok_stage(ts[0], params, values, m);
        let rest = join_stage(ts.drop_first(), params, values, m);
        assert(join_stage(ts, params, values, m) =~= (head + seq![' ']) + rest);
        lemma_rs_concat(head + seq![' '], rest);
        lemma_rs_concat(head, seq![' ']);
        assert(seq![' '].drop_last() =~= Seq::<char>::empty());
        assert(remove_spaces(seq![' ']) == remove_spaces(Seq::<char>::empty()));
        assert(remove_spaces(seq![' ']) == Seq::<char>::empty());
        assert(remove_spaces(head + seq![' ']) =~= head);
        assert(head + remove_spaces(rest) =~= flat_out(ts, params, values));
    }
}

/// Each fully substituted token is two hexadecimal characters.
proof fn lemma_tok_out_chunk(t: Tok, params: Seq<MidiParameter>, values: Seq<usize>)
    requires
        wf_tok(t, params),
        values.len() == params.len(),
        forall|i: int|
            0 <= i < params.len() ==> (values[i] as nat) < pow16(params[i].size as nat),
    ensures
        tok_stage(t, params, values, params.len() as int).len() == 2,
        forall|k: int| 0 <= k < 2 ==> is_hex_digit(
            #[trigger] tok_stage(t, params, values, params.len() as int)[k],
        ),
        hex_val(tok_stage(t, params, values, params.len() as int)[0]) * 16 + hex_val(
            tok_stage(t, params, values, params.len() as int)[1],
        ) == tok_byte(t, values),
{
    let m = params.len() as int;
    assert(pow16(0) == 1);
    assert(pow16(1) == 16);
    assert(pow16(2) == 256);
    match t {
        Tok::Hex(a, b) => {
            assert(hex_val(a) < 16 && hex_val(b) < 16);
        },
        Tok::Key(i) => {
            assert(params[i].size == 2);
            assert((values[i] as nat) < 256);
            lemma_render2_value(values[i] as nat);
            lemma_render_hex(values[i] as nat, 2);
        },
        Tok::Mixed(h, i) => {
            assert(params[i].size == 1);
            assert((values[i] as nat) < 16);
            lemma_render1_value(values[i] as nat);
            lemma_render_hex(values[i] as nat, 1);
            let txt = seq![h] + spec_render(values[i] as nat, 1);
            assert(txt[0] == h);
            assert(txt[1] == spec_render(values[i] as nat, 1)[0]);
        },
    }
}

/// The bytes of the substituted text, two hexadecimal digits per token.
proof fn lemma_flat_bytes(ts: Seq<Tok>, params: Seq<MidiParameter>, values: Seq<usize>)
    requires
        forall|x: int| 0 <= x < ts.len() ==> wf_tok(#[trigger] ts[x], params),
        values.len() == params.len(),
        forall|i: int|
            0 <= i < params.len() ==> (values[i] as nat) < pow16(params[i].size as nat),
    ensures
        flat_out(ts, params, values).len() == 2 * ts.len(),
        forall|k: int| 0 <= k < flat_out(ts, params, values).len() ==> is_hex_digit(
            #[trigger] flat_out(ts, params, values)[k],
        ),
        crate::utils::bytes_of_hex(flat_out(ts, params, values)) == toks_bytes(ts, values),
    decreases ts.len(),
{
    if ts.len() == 0 {
        assert(crate::utils::bytes_of_hex(flat_out(ts, params, values))
            == Seq::<u8>::empty());
        assert(toks_bytes(ts, values) == Seq::<u8>::empty());
    } else {
        assert forall|x: int| 0 <= x < ts.drop_first().len() implies wf_tok(
            #[trigger] ts.drop_first()[x],
            params,
        ) by {
            assert(ts.drop_first()[x] == ts[x + 1]);
        }
        lemma_flat_bytes(ts.drop_first(), params, values);
        lemma_tok_out_chunk(ts[0], params, values);
        let m = params.len() as int;
        let chunk = tok_stage(ts[0], params, values, m);
        let rest = flat_out(ts.drop_first(), params, values);
        let whole = chunk + rest;
        assert(flat_out(ts, params, values) == whole);
        assert(whole.len() == 2 + rest.len());
        assert forall|k: int| 0 <= k < whole.len() implies is_hex_digit(
            #[trigger] whole[k],
        ) by {
            if k < 2 {
                assert(whole[k] == chunk[k]);
            } else {
                assert(whole[k] == rest[k - 2]);
            }
        }
        assert(whole[0] == chunk[0]);
        assert(whole[1] == chunk[1]);
        assert(whole.skip(2) =~= rest);
        assert(crate::utils::bytes_of_hex(whole) == seq![
            (hex_val(whole[0]) * 16 + hex_val(whole[1])) as u8,
        ] + crate::utils::bytes_of_hex(rest));
        lemma_toks_bytes_index(ts, values);
        lemma_toks_bytes_index(ts.drop_first(), values);
        assert((hex_val(chunk[0]) * 16 + hex_val(chunk[1])) as u8 == tok_byte(ts[0], values));
        let combined = seq![tok_byte(ts[0], values)] + toks_bytes(ts.drop_first(), values);
        assert forall|x: int| 0 <= x < ts.len() implies combined[x] == toks_bytes(
            ts,
            values,
        )[x] by {
            if x > 0 {
                assert(ts.drop_first()[x - 1] == ts[x]);
                assert(combined[x] == toks_bytes(ts.drop_first(), values)[x - 1]);
            }
        }
        assert(combined =~= toks_bytes(ts, values));
    }
}

/// The byte array of a template has one byte per token, in order.
proof fn lemma_toks_bytes_index(ts: Seq<Tok>, values: Seq<usize>)
    ensures
        toks_bytes(ts, values).len() == ts.len(),
        forall|x: int| 0 <= x < ts.len() ==> toks_bytes(ts, values)[x] == tok_byte(
            #[trigger] ts[x],
            values,
        ),
    decreases ts.len(),
{
    if ts.len() > 0 {
        lemma_toks_bytes_index(ts.drop_last(), values);
        assert forall|x: int| 0 <= x < ts.len() implies toks_bytes(ts, values)[x] == tok_byte(
            #[trigger] ts[x],
            values,
        ) by {
            if x < ts.len() - 1 {
                assert(ts.drop_last()[x] == ts[x]);
            }
        }
    }
}

} // verus!

verus! {

/// From the count being one, the parameter's key facts follow from the
/// token that carries it.
proof fn lemma_key_facts(ts: Seq<Tok>, params: Seq<MidiParameter>, n: int)
    requires
        0 <= n < params.len(),
        forall|x: int| 0 <= x < ts.len() ==> wf_tok(#[trigger] ts[x], params),
        occ(ts, n) >= 1,
    ensures
        params[n].key@.len() == 1,
        !is_hex_digit(params[n].key@[0]),
        params[n].key@[0] != ' ',
        params[n].size == 1 || params[n].size == 2,
{
    lemma_occ_exists(ts, n);
    let x = choose|x: int|
        0 <= x < ts.len() && match #[trigger] ts[x] {
            Tok::Hex(_, _) => false,
            Tok::Key(j) => j == n,
            Tok::Mixed(_, j) => j == n,
        };
    assert(wf_tok(ts[x], params));
}

/// Substituting every parameter, in declaration order, turns the raw
/// template text into the fully substituted text.
proof fn lemma_subst_all(ts: Seq<Tok>, params: Seq<MidiParameter>, values: Seq<usize>, n: int)
    requires
        wf_template(ts, params),
        values.len() == params.len(),
        0 <= n <= params.len(),
    ensures
        crate::midi_command::spec_subst(
            join_stage(ts, params, values, n),
            crate::midi_command::rendered_pairs(params, values).skip(n),
        ) == join_stage(ts, params, values, params.len() as int),
    decreases params.len() - n,
{
    let pairs = crate::midi_command::rendered_pairs(params, values);
    let m = params.len() as int;
    if n == m {
        assert(pairs.skip(m) =~= Seq::<(Seq<char>, Seq<char>)>::empty());
    } else {
        lemma_key_facts(ts, params, n);
        assert(pairs.skip(n)[0] == pairs[n]);
        assert(pairs[n].0 == params[n].key@);
        assert(pairs[n].1 == spec_render(values[n] as nat, params[n].size as nat));
        lemma_subst_step(ts, params, values, n);
        assert(pairs.skip(n).drop_first() =~= pairs.skip(n + 1));
        lemma_subst_all(ts, params, values, n + 1);
    }
}

/// The compiled mask byte of each token.
proof fn lemma_tok_mask(t: Tok, params: Seq<MidiParameter>, values: Seq<usize>)
    requires
        wf_tok(t, params),
    ensures
        crate::midi_command::token_mask(tok_stage(t, params, values, 0)) == (match t {
            Tok::Hex(_, _) => 0xFFu8,
            Tok::Key(_) => 0x00u8,
            Tok::Mixed(_, _) => 0xF0u8,
        }),
        crate::midi_command::token_val(tok_stage(t, params, values, 0)) == (match t {
            Tok::Hex(a, b) => (hex_val(a) * 16 + hex_val(b)) as u8,
            Tok::Key(_) => 0x00u8,
            Tok::Mixed(h, _) => (hex_val(h) * 16) as u8,
        }),
{
    match t {
        Tok::Hex(a, b) => {
        },
        Tok::Key(i) => {
            assert(tok_stage(t, params, values, 0) == params[i].key@);
            assert(params[i].key@.len() == 1);
        },
        Tok::Mixed(h, i) => {
            let txt = seq![h] + params[i].key@;
            assert(txt.len() == 2);
            assert(txt[0] == h);
            assert(txt[1] == params[i].key@[0]);
        },
    }
}

/// The compiled template: a codec whose mask and fixed arrays were
/// compiled from its template text, in terms of the token structure.
pub open spec fn compiled_from(
    c: crate::midi_command::MidiCommand,
    ts: Seq<Tok>,
    values: Seq<usize>,
) -> bool {
    &&& c.midi@ == join_stage(ts, c.parameters@, values, 0)
    &&& c.mask@ == spec_split(c.midi@, ' ').map_values(
        |t: Seq<char>| crate::midi_command::token_mask(t),
    )
    &&& c.masked_val@ == spec_split(c.midi@, ' ').map_values(
        |t: Seq<char>| crate::midi_command::token_val(t),
    )
}

/// Round trip of the codec.  A codec compiled from a well-formed template
/// generates, for fitting values, text that converts to one byte per
/// token; the codec matches that byte sequence; and extraction returns
/// exactly the substituted values, one byte per placeholder, in template
/// order.
pub proof fn lemma_codec_roundtrip(
    c: crate::midi_command::MidiCommand,
    ts: Seq<Tok>,
    values: Seq<usize>,
)
    requires
        wf_template(ts, c.parameters@),
        values_fit(ts, c.parameters@, values),
        compiled_from(c, ts, values),
    ensures
        crate::midi_command::spec_subst(
            c.midi@,
            crate::midi_command::rendered_pairs(c.parameters@, values),
        ) == join_stage(ts, c.parameters@, values, c.parameters@.len() as int),
        crate::utils::spaced_hex(join_stage(ts, c.parameters@, values, c.parameters@.len() as int)),
        crate::utils::bytes_of_hex(
            remove_spaces(join_stage(ts, c.parameters@, values, c.parameters@.len() as int)),
        ) == toks_bytes(ts, values),
        crate::midi_command::spec_matches(toks_bytes(ts, values), c.mask@, c.masked_val@),
        crate::midi_command::spec_extract(toks_bytes(ts, values), c.mask@) == toks_extract(
            ts,
            values,
        ),
{
    let params = c.parameters@;
    let m = params.len() as int;
    let out = join_stage(ts, params, values, m);

    // 1. substitution
    lemma_subst_all(ts, params, values, 0);
    assert(crate::midi_command::rendered_pairs(params, values).skip(0)
        =~= crate::midi_command::rendered_pairs(params, values));

    // 2. bytes
    lemma_rs_join(ts, params, values);
    lemma_flat_bytes(ts, params, values);
    let flat = flat_out(ts, params, values);
    assert(remove_spaces(out) == flat);
    // every character of the joined text is a space or a hexadecimal digit
    lemma_split_join(ts, params, values, m);
    assert forall|k: int| 0 <= k < out.len() implies out[k] == ' ' || is_hex_digit(
        out[k],
    ) by {
        lemma_out_chars(ts, params, values, k);
    }
    assert(crate::utils::spaced_hex(out));

    // 3. mask and fixed arrays, token-wise
    lemma_split_join(ts, params, values, 0);
    let raw_toks = Seq::new(ts.len(), |x: int| tok_stage(ts[x], params, values, 0));
    assert(spec_split(c.midi@, ' ') == raw_toks);
    assert(c.mask@.len() == ts.len());
    assert(c.masked_val@.len() == ts.len());
    assert forall|x: int| 0 <= x < ts.len() implies c.mask@[x] == (match ts[x] {
        Tok::Hex(_, _) => 0xFFu8,
        Tok::Key(_) => 0x00u8,
        Tok::Mixed(_, _) => 0xF0u8,
    }) && c.masked_val@[x] == (match ts[x] {
        Tok::Hex(a, b) => (hex_val(a) * 16 + hex_val(b)) as u8,
        Tok::Key(_) => 0x00u8,
        Tok::Mixed(h, _) => (hex_val(h) * 16) as u8,
    }) by {
        lemma_tok_mask(ts[x], params, values);
        assert(c.mask@[x] == crate::midi_command::token_mask(raw_toks[x]));
        assert(c.masked_val@[x] == crate::midi_command::token_val(raw_toks[x]));
    }

    // 4. matching
    lemma_toks_bytes_index(ts, values);
    assert(pow16(0) == 1);
    assert(pow16(1) == 16);
    assert(pow16(2) == 256);
    assert forall|x: int| 0 <= x < ts.len() implies (toks_bytes(ts, values)[x] & c.mask@[x])
        == c.masked_val@[x] by {
        lemma_byte_masks(ts[x], params, values);
    }
    assert(crate::midi_command::spec_matches(toks_bytes(ts, values), c.mask@, c.masked_val@));

    // 5. extraction
    lemma_extract_toks(ts, params, values, c.mask@);
}

/// Every character of the joined stage text is a space or one of a
/// token's characters.
proof fn lemma_out_chars(ts: Seq<Tok>, params: Seq<MidiParameter>, values: Seq<usize>, k: int)
    requires
        forall|x: int| 0 <= x < ts.len() ==> wf_tok(#[trigger] ts[x], params),
        values.len() == params.len(),
        forall|i: int|
            0 <= i < params.len() ==> (values[i] as nat) < pow16(params[i].size as nat),
        0 <= k < join_stage(ts, params, values, params.len() as int).len(),
    ensures
        join_stage(ts, params, values, params.len() as int)[k] == ' ' || is_hex_digit(
            join_stage(ts, params, values, params.len() as int)[k],
        ),
    decreases ts.len(),
{
    let m = params.len() as int;
    if ts.len() == 0 {
    } else if ts.len() == 1 {
        lemma_tok_out_chunk(ts[0], params, values);
    } else {
        lemma_tok_out_chunk(ts[0], params, values);
        let head = tok_stage(ts[0], params, values, m);
        let rest = join_stage(ts.drop_first(), params, values, m);
        if k < head.len() {
            assert(join_stage(ts, params, values, m)[k] == head[k]);
        } else if k == head.len() {
            assert(join_stage(ts, params, values, m)[k] == ' ');
        } else {
            assert(join_stage(ts, params, values, m)[k] == rest[k - head.len() - 1]);
            assert forall|x: int| 0 <= x < ts.drop_first().len() implies wf_tok(
                #[trigger] ts.drop_first()[x],
                params,
            ) by {
                assert(ts.drop_first()[x] == ts[x + 1]);
            }
            lemma_out_chars(ts.drop_first(), params, values, k - head.len() - 1);
        }
    }
}

/// Masking one byte of the substituted template agrees with the fixed
/// byte, and clearing the mask leaves the substituted value.
proof fn lemma_byte_masks(t: Tok, params: Seq<MidiParameter>, values: Seq<usize>)
    requires
        wf_tok(t, params),
        values.len() == params.len(),
        forall|i: int|
            0 <= i < params.len() ==> (values[i] as nat) < pow16(params[i].size as nat),
    ensures
        match t {
            Tok::Hex(a, b) => tok_byte(t, values) & 0xFF == (hex_val(a) * 16 + hex_val(b)) as u8,
            Tok::Key(i) => tok_byte(t, values) & 0x00 == 0x00 && tok_byte(t, values) & !0x00u8
                == values[i] as u8,
            Tok::Mixed(h, i) => tok_byte(t, values) & 0xF0 == (hex_val(h) * 16) as u8 && tok_byte(
                t,
                values,
            ) & !0xF0u8 == values[i] as u8,
        },
{
    assert(pow16(0) == 1);
    assert(pow16(1) == 16);
    assert(pow16(2) == 256);
    match t {
        Tok::Hex(a, b) => {
            let y = tok_byte(t, values);
            assert(y & 0xFF == y) by (bit_vector);
        },
        Tok::Key(i) => {
            let y = tok_byte(t, values);
            assert(y & 0x00 == 0x00) by (bit_vector);
            assert(y & !0x00u8 == y) by (bit_vector);
        },
        Tok::Mixed(h, i) => {
            let hv = hex_val(h);
            let vv = values[i] as u8;
            assert(hv < 16);
            assert((values[i] as nat) < 16);
            assert(vv < 16);
            assert(tok_byte(t, values) == (hv * 16 + vv) as u8);
            let y = (hv * 16 + vv) as u8;
            assert(hv < 16 && vv < 16 ==> (y == hv * 16 + vv && y & 0xF0 == hv * 16 && y
                & !0xF0u8 == vv)) by (bit_vector)
                requires
                    y == (hv * 16 + vv) as u8,
            ;
        },
    }
}

/// Extraction over the byte array returns the substituted values, one per
/// placeholder token, in order.
proof fn lemma_extract_toks(
    ts: Seq<Tok>,
    params: Seq<MidiParameter>,
    values: Seq<usize>,
    mask: Seq<u8>,
)
    requires
        forall|x: int| 0 <= x < ts.len() ==> wf_tok(#[trigger] ts[x], params),
        values.len() == params.len(),
        forall|i: int|
            0 <= i < params.len() ==> (values[i] as nat) < pow16(params[i].size as nat),
        mask.len() == ts.len(),
        forall|x: int|
            0 <= x < ts.len() ==> mask[x] == (match #[trigger] ts[x] {
                Tok::Hex(_, _) => 0xFFu8,
                Tok::Key(_) => 0x00u8,
                Tok::Mixed(_, _) => 0xF0u8,
            }),
    ensures
        crate::midi_command::spec_extract(toks_bytes(ts, values), mask) == toks_extract(
            ts,
            values,
        ),
    decreases ts.len(),
{
    lemma_toks_bytes_index(ts, values);
    if ts.len() > 0 {
        let data = toks_bytes(ts, values);
        assert(data.len() == ts.len());
        assert forall|x: int| 0 <= x < ts.drop_last().len() implies wf_tok(
            #[trigger] ts.drop_last()[x],
            params,
        ) by {
            assert(ts.drop_last()[x] == ts[x]);
        }
        assert forall|x: int|
            0 <= x < ts.drop_last().len() implies mask.drop_last()[x] == (
        match #[trigger] ts.drop_last()[x] {
            Tok::Hex(_, _) => 0xFFu8,
            Tok::Key(_) => 0x00u8,
            Tok::Mixed(_, _) => 0xF0u8,
        }) by {
            assert(ts.drop_last()[x] == ts[x]);
            assert(mask.drop_last()[x] == mask[x]);
        }
        lemma_extract_toks(ts.drop_last(), params, values, mask.drop_last());
        assert(data.drop_last() == toks_bytes(ts.drop_last(), values));
        lemma_byte_masks(ts.last(), params, values);
        assert(data.last() == tok_byte(ts.last(), values));
        assert(mask.last() == (match ts.last() {
            Tok::Hex(_, _) => 0xFFu8,
            Tok::Key(_) => 0x00u8,
            Tok::Mixed(_, _) => 0xF0u8,
        }));
        match ts.last() {
            Tok::Hex(_, _) => {
                assert(toks_extract(ts, values) =~= toks_extract(ts.drop_last(), values));
            },
            Tok::Key(i) => {
            },
            Tok::Mixed(_, i) => {
            },
        }
    }
}

} // verus!
