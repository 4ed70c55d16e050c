//! Parsed definition lines: a command name with its named parameters, and
//! the grouping of raw definition text into one line per definition.

use vstd::prelude::*;

use crate::strutil::{dec_render, is_space_char, push_char, space_char, spec_dec_render,
    spec_split, spec_trim, spec_trim_end, split_char, str_eq, trim};

verus! {

/// The key/value pairs of a command, views taken on both components.
pub open spec fn pairs_view(pairs: Seq<(String, String)>) -> Seq<(Seq<char>, Seq<char>)> {
    pairs.map_values(|p: (String, String)| (p.0@, p.1@))
}

/// The value bound to `key`, when several bindings exist the latest.
pub open spec fn spec_lookup(pairs: Seq<(Seq<char>, Seq<char>)>, key: Seq<char>) -> Option<
    Seq<char>,
>
    decreases pairs.len(),
{
    if pairs.len() == 0 {
        None
    } else if pairs.last().0 == key {
        Some(pairs.last().1)
    } else {
        spec_lookup(pairs.drop_last(), key)
    }
}

pub proof fn lemma_lookup_exists(pairs: Seq<(Seq<char>, Seq<char>)>, key: Seq<char>)
    ensures
        (spec_lookup(pairs, key) is Some) <==> exists|k: int|
            0 <= k < pairs.len() && pairs[k].0 == key,
    decreases pairs.len(),
{
    if pairs.len() > 0 {
        lemma_lookup_exists(pairs.drop_last(), key);
        if pairs.last().0 == key {
            assert(pairs[pairs.len() - 1].0 == key);
        } else if exists|k: int| 0 <= k < pairs.len() && pairs[k].0 == key {
            let k = choose|k: int| 0 <= k < pairs.len() && pairs[k].0 == key;
            assert(k < pairs.len() - 1);
            assert(pairs.drop_last()[k].0 == key);
        }
    }
}

/// The key that a numbered parameter occupies: `base_k`.
pub open spec fn numbered_key(base: Seq<char>, k: nat) -> Seq<char> {
    base + seq!['_'] + spec_dec_render(k)
}

/// One parsed definition: a command name and its key/value parameters, in
/// the order they were given; a key bound twice keeps both bindings, and
/// lookups see the latest.
pub struct Command {
    pub name: String,
    pub parameters: Vec<(String, String)>,
}

impl Command {
    pub fn new(name: String) -> (r: Command)
        ensures
            r.name == name,
            r.parameters@ == Seq::<(String, String)>::empty(),
    {
        Command { name, parameters: Vec::new() }
    }

    /// Binds `key` to `value`, after any earlier bindings.
    pub fn add_parameter(&mut self, key: String, value: String)
        ensures
            final(self).parameters@ == old(self).parameters@.push((key, value)),
            final(self).name == old(self).name,
    {
        self.parameters.push((key, value));
    }

    /// The value bound to `key`, if any; the latest binding wins.
    pub fn get_parameter(&self, key: &str) -> (r: Option<&String>)
        ensures
            match r {
                Some(v) => spec_lookup(pairs_view(self.parameters@), key@) == Some(v@),
                None => spec_lookup(pairs_view(self.parameters@), key@) is None,
            },
    {
        let ghost pp = pairs_view(self.parameters@);
        let n = self.parameters.len();
        let mut i: usize = n;
        proof {
            assert(pp.take(n as int) =~= pp);
        }
        while i > 0
            invariant
                pp == pairs_view(self.parameters@),
                n == self.parameters@.len(),
                i <= n,
                spec_lookup(pp, key@) == spec_lookup(pp.take(i as int), key@),
            decreases i,
        {
            i -= 1;
            proof {
                let t = pp.take(i as int + 1);
                assert(t.last() == pp[i as int]);
                assert(t.drop_last() =~= pp.take(i as int));
            }
            if str_eq(self.parameters[i].0.as_str(), key) {
                return Some(&self.parameters[i].1);
            }
        }
        proof {
            assert(pp.take(0) =~= Seq::<(Seq<char>, Seq<char>)>::empty());
        }
        None
    }

    /// The value of the `index`-th binding, in binding order.
    pub fn get_parameter_from_index(&self, index: usize) -> (r: Option<&String>)
        ensures
            index < self.parameters@.len() ==> (r matches Some(v) && v@ == pairs_view(
                self.parameters@,
            )[index as int].1),
            index >= self.parameters@.len() ==> r is None,
    {
        if index < self.parameters.len() {
            Some(&self.parameters[index].1)
        } else {
            None
        }
    }

    /// Whether some binding uses `key`.
    pub fn has_parameter(&self, key: &str) -> (r: bool)
        ensures
            r == (spec_lookup(pairs_view(self.parameters@), key@) is Some),
    {
        proof {
            lemma_lookup_exists(pairs_view(self.parameters@), key@);
        }
        let n = self.parameters.len();
        let mut i: usize = 0;
        while i < n
            invariant
                n == self.parameters@.len(),
                i <= n,
                forall|k: int| 0 <= k < i ==> pairs_view(self.parameters@)[k].0 != key@,
            decreases n - i,
        {
            if str_eq(self.parameters[i].0.as_str(), key) {
                proof {
                    assert(pairs_view(self.parameters@)[i as int].0 == key@);
                    lemma_lookup_exists(pairs_view(self.parameters@), key@);
                }
                return true;
            }
            i += 1;
        }
        false
    }

    /// Whether the binding `parameter_index` exists.
    pub fn has_numbered_parameter(&self, parameter: &str, index: usize) -> (r: bool)
        ensures
            r == (spec_lookup(pairs_view(self.parameters@), numbered_key(
                parameter@,
                index as nat,
            )) is Some),
    {
        let key = Self::numbered(parameter, index);
        self.has_parameter(key.as_str())
    }

    /// The value of the binding `parameter_index`, if any.
    pub fn get_numbered_parameter(&self, parameter: &str, index: usize) -> (r: Option<&String>)
        ensures
            match r {
                Some(v) => spec_lookup(pairs_view(self.parameters@), numbered_key(
                    parameter@,
                    index as nat,
                )) == Some(v@),
                None => spec_lookup(pairs_view(self.parameters@), numbered_key(
                    parameter@,
                    index as nat,
                )) is None,
            },
    {
        let key = Self::numbered(parameter, index);
        self.get_parameter(key.as_str())
    }

    /// Builds the key `parameter_index`.
    fn numbered(parameter: &str, index: usize) -> (r: String)
        ensures
            r@ == numbered_key(parameter@, index as nat),
    {
        let mut key = String::from_str(parameter);
        push_char(&mut key, '_');
        let num = dec_render(index);
        key.append(num.as_str());
        proof {
            assert(key@ =~= parameter@ + seq!['_'] + spec_dec_render(index as nat));
        }
        key
    }
}

/// One folding step of definition-line grouping: a trimmed line starting
/// with `-` continues the current definition; otherwise the current
/// definition (if any) is emitted and the line starts a new one.
pub open spec fn group_step(acc: (Seq<Seq<char>>, Seq<char>), line: Seq<char>) -> (
    Seq<Seq<char>>,
    Seq<char>,
) {
    let t = spec_trim(line);
    if t.len() > 0 && t[0] == '-' {
        (acc.0, acc.1 + t)
    } else if acc.1.len() == 0 {
        (acc.0, t)
    } else {
        (acc.0.push(acc.1), t)
    }
}

/// Grouping folded over all lines, starting from nothing.
pub open spec fn group_lines(lines: Seq<Seq<char>>) -> (Seq<Seq<char>>, Seq<char>)
    decreases lines.len(),
{
    if lines.len() == 0 {
        (Seq::empty(), Seq::empty())
    } else {
        group_step(group_lines(lines.drop_last()), lines.last())
    }
}

/// The definitions of a raw text: lines are grouped, and a non-empty
/// trailing definition is emitted too.
pub open spec fn spec_get_commands(content: Seq<char>) -> Seq<Seq<char>> {
    let g = group_lines(spec_split(content, '\n'));
    if g.1.len() == 0 {
        g.0
    } else {
        g.0.push(g.1)
    }
}

/// Turns raw definition text into commands.
pub struct CommandParser {}

impl CommandParser {
    /// Groups the lines of `content` into definitions: a line whose trimmed
    /// text starts with `-` continues the previous line's definition.
    pub fn get_commands(content: String) -> (r: Vec<String>)
        ensures
            r.deep_view() == spec_get_commands(content@),
    {
        let lines = split_char(content.as_str(), '\n');
        let n = lines.len();
        let mut commands: Vec<String> = Vec::new();
        let mut current: String = String::new();
        let mut i: usize = 0;
        proof {
            assert(lines.deep_view().len() == lines@.len());
            assert(lines.deep_view().take(0) =~= Seq::<Seq<char>>::empty());
        }
        while i < n
            invariant
                lines.deep_view() == spec_split(content@, '\n'),
                n == lines@.len(),
                i <= n,
                commands.deep_view() == group_lines(lines.deep_view().take(i as int)).0,
                current@ == group_lines(lines.deep_view().take(i as int)).1,
            decreases n - i,
        {
            proof {
                let t = lines.deep_view().take(i as int + 1);
                assert(t.drop_last() =~= lines.deep_view().take(i as int));
                assert(t.last() == lines.deep_view()[i as int]);
                assert(lines.deep_view()[i as int] == lines@[i as int]@);
            }
            let line = trim(lines[i].as_str());
            let starts_dash = line.unicode_len() > 0 && line.as_str().get_char(0) == '-';
            if starts_dash {
                current.append(line.as_str());
            } else if current.unicode_len() == 0 {
                current = line;
            } else {
                let ghost prev = commands.deep_view();
                commands.push(current);
                proof {
                    assert(commands.deep_view() =~= prev.push(commands@[commands@.len() - 1]@));
                }
                current = line;
            }
            i += 1;
        }
        proof {
            assert(lines.deep_view().take(n as int) =~= lines.deep_view());
        }
        if current.unicode_len() > 0 {
            let ghost prev = commands.deep_view();
            commands.push(current);
            proof {
                assert(commands.deep_view() =~= prev.push(commands@[commands@.len() - 1]@));
            }
        }
        commands
    }
}

} // verus!

verus! {

/// The index of the first `-` in `s`, or the length when there is none.
pub open spec fn first_dash(s: Seq<char>) -> int
    decreases s.len(),
{
    if s.len() == 0 {
        0
    } else if s[0] == '-' {
        0
    } else {
        1 + first_dash(s.drop_first())
    }
}

/// The maximal suffix of `s` holding no whitespace.
pub open spec fn nonws_suffix(s: Seq<char>) -> Seq<char>
    decreases s.len(),
{
    if s.len() == 0 || is_space_char(s.last()) {
        Seq::empty()
    } else {
        nonws_suffix(s.drop_last()).push(s.last())
    }
}

/// The maximal prefix of `s` holding no whitespace.
pub open spec fn nonws_prefix(s: Seq<char>) -> Seq<char>
    decreases s.len(),
{
    if s.len() == 0 || is_space_char(s[0]) {
        Seq::empty()
    } else {
        seq![s[0]] + nonws_prefix(s.drop_first())
    }
}

/// The maximal prefix of `s` holding no double quote.
pub open spec fn nonquote_prefix(s: Seq<char>) -> Seq<char>
    decreases s.len(),
{
    if s.len() == 0 || s[0] == '"' {
        Seq::empty()
    } else {
        seq![s[0]] + nonquote_prefix(s.drop_first())
    }
}

/// The name a definition line declares: the last whitespace-delimited
/// word before the first `-`.  A line without a `-`, or whose word is
/// empty or holds a quote, declares nothing.
pub open spec fn spec_line_name(s: Seq<char>) -> Option<Seq<char>> {
    if first_dash(s) == s.len() {
        None
    } else {
        let w = nonws_suffix(spec_trim_end(s.take(first_dash(s))));
        if w.len() >= 1 && (forall|k: int| 0 <= k < w.len() ==> w[k] != '"') {
            Some(w)
        } else {
            None
        }
    }
}

/// A parameter `-key "value"` read at the start of `s`: the key is the
/// maximal non-whitespace run after the dash and must be followed by
/// exactly one space and a quoted, non-empty value.  Returns the key, the
/// value and the number of characters consumed.
pub open spec fn param_at(s: Seq<char>) -> Option<(Seq<char>, Seq<char>, int)> {
    let key = nonws_prefix(s.skip(1));
    if s.len() < 1 || s[0] != '-' || key.len() == 0 {
        None
    } else {
        let rest = s.skip(1 + key.len() as int);
        if rest.len() >= 2 && rest[0] == ' ' && rest[1] == '"' {
            let value = nonquote_prefix(rest.skip(2));
            if value.len() >= 1 && value.len() < rest.skip(2).len() {
                Some((key, value, 4 + key.len() as int + value.len() as int))
            } else {
                None
            }
        } else {
            None
        }
    }
}

pub proof fn lemma_nonws_prefix_len(s: Seq<char>)
    ensures
        nonws_prefix(s).len() <= s.len(),
    decreases s.len(),
{
    if s.len() > 0 && !is_space_char(s[0]) {
        lemma_nonws_prefix_len(s.drop_first());
    }
}

pub proof fn lemma_nonquote_prefix_len(s: Seq<char>)
    ensures
        nonquote_prefix(s).len() <= s.len(),
    decreases s.len(),
{
    if s.len() > 0 && s[0] != '"' {
        lemma_nonquote_prefix_len(s.drop_first());
    }
}

/// A well-formed parameter consumes between six characters and the whole
/// remaining text.
pub proof fn lemma_param_at_used(s: Seq<char>)
    requires
        param_at(s) is Some,
    ensures
        6 <= param_at(s)->Some_0.2 <= s.len(),
{
    lemma_nonws_prefix_len(s.skip(1));
    let key = nonws_prefix(s.skip(1));
    let rest = s.skip(1 + key.len() as int);
    lemma_nonquote_prefix_len(rest.skip(2));
}

/// All parameters of a definition line, scanned left to right; a dash
/// that does not open a well-formed parameter is passed over.
pub open spec fn scan_params(s: Seq<char>) -> Seq<(Seq<char>, Seq<char>)>
    decreases s.len(),
    via scan_params_decreases
{
    if s.len() == 0 {
        Seq::empty()
    } else if s[0] == '-' {
        match param_at(s) {
            Option::Some(kvu) => seq![(kvu.0, kvu.1)] + scan_params(s.skip(kvu.2)),
            Option::None => scan_params(s.skip(1)),
        }
    } else {
        scan_params(s.skip(1))
    }
}

#[via_fn]
proof fn scan_params_decreases(s: Seq<char>) {
    if s.len() > 0 && s[0] == '-' && param_at(s) is Some {
        lemma_param_at_used(s);
    }
}

/// How many of the first `i` raw pairs use `key`.
pub open spec fn key_count(raw: Seq<(Seq<char>, Seq<char>)>, key: Seq<char>, i: int) -> nat
    decreases i,
{
    if i <= 0 {
        0
    } else {
        key_count(raw, key, i - 1) + (if raw[i - 1].0 == key {
            1nat
        } else {
            0nat
        })
    }
}

/// The final binding of one raw pair: a key starting with `@` is numbered
/// by how often that key appeared before.
pub open spec fn numbered_pair(
    raw: Seq<(Seq<char>, Seq<char>)>,
    i: int,
) -> (Seq<char>, Seq<char>) {
    let k = raw[i].0;
    if k.len() >= 1 && k[0] == '@' {
        (k.drop_first() + seq!['_'] + spec_dec_render(key_count(raw, k, i)), raw[i].1)
    } else {
        raw[i]
    }
}

/// The bindings of a definition line, in order, with `@`-keys numbered.
pub open spec fn numbered_pairs(raw: Seq<(Seq<char>, Seq<char>)>) -> Seq<(Seq<char>, Seq<char>)> {
    Seq::new(raw.len(), |i: int| numbered_pair(raw, i))
}

/// The parses of the lines of `content` that declare a name, in order:
/// each as the declared name with the numbered bindings.
pub open spec fn parsed_models(content: Seq<String>) -> Seq<(Seq<char>, Seq<(Seq<char>, Seq<char>)>)>
    decreases content.len(),
{
    if content.len() == 0 {
        Seq::empty()
    } else {
        parsed_models(content.drop_last()) + (match spec_line_name(content.last()@) {
            Option::Some(nm) => seq![(nm, numbered_pairs(scan_params(content.last()@)))],
            Option::None => Seq::empty(),
        })
    }
}

/// `r` holds exactly the parses of `content`'s well-formed lines.
pub open spec fn parsed_from(r: Seq<Command>, content: Seq<String>) -> bool {
    &&& r.len() == parsed_models(content).len()
    &&& (forall|x: int|
        #![trigger r[x]]
        0 <= x < r.len() ==> r[x].name@ == parsed_models(content)[x].0 && pairs_view(
            r[x].parameters@,
        ) == parsed_models(content)[x].1)
}

} // verus!

verus! {

proof fn lemma_first_dash_at(s: Seq<char>, d: int)
    requires
        0 <= d <= s.len(),
        forall|k: int| 0 <= k < d ==> s[k] != '-',
        d < s.len() ==> s[d] == '-',
    ensures
        first_dash(s) == d,
    decreases d,
{
    if s.len() > 0 && s[0] != '-' {
        assert(d > 0 || d == 0);
        if d == 0 {
            assert(s[0] == '-' || s.len() == 0);
        } else {
            assert forall|k: int| 0 <= k < d - 1 implies s.drop_first()[k] != '-' by {
                assert(s.drop_first()[k] == s[k + 1]);
            }
            if d - 1 < s.drop_first().len() {
                assert(s.drop_first()[d - 1] == s[d]);
            }
            lemma_first_dash_at(s.drop_first(), d - 1);
        }
    }
}

proof fn lemma_nonws_suffix_at(u: Seq<char>, b: int)
    requires
        0 <= b <= u.len(),
        forall|k: int| b <= k < u.len() ==> !is_space_char(u[k]),
        b > 0 ==> is_space_char(u[b - 1]),
    ensures
        nonws_suffix(u) == u.subrange(b, u.len() as int),
    decreases u.len() - b,
{
    if u.len() == b {
        if b == 0 {
            assert(u.subrange(0, 0) =~= Seq::<char>::empty());
        } else {
            assert(is_space_char(u.last()));
            assert(u.subrange(b, u.len() as int) =~= Seq::<char>::empty());
        }
    } else {
        assert(!is_space_char(u.last()));
        assert forall|k: int| b <= k < u.drop_last().len() implies !is_space_char(
            u.drop_last()[k],
        ) by {
            assert(u.drop_last()[k] == u[k]);
        }
        if b > 0 {
            assert(u.drop_last()[b - 1] == u[b - 1]);
        }
        lemma_nonws_suffix_at(u.drop_last(), b);
        assert(u.drop_last().subrange(b, u.drop_last().len() as int).push(u.last())
            =~= u.subrange(b, u.len() as int));
    }
}

proof fn lemma_nonws_prefix_at(u: Seq<char>, m: int)
    requires
        0 <= m <= u.len(),
        forall|k: int| 0 <= k < m ==> !is_space_char(u[k]),
        m < u.len() ==> is_space_char(u[m]),
    ensures
        nonws_prefix(u) == u.take(m),
    decreases m,
{
    if u.len() == 0 || is_space_char(u[0]) {
        assert(m == 0);
        assert(u.take(0) =~= Seq::<char>::empty());
    } else {
        assert(m > 0);
        assert forall|k: int| 0 <= k < m - 1 implies !is_space_char(u.drop_first()[k]) by {
            assert(u.drop_first()[k] == u[k + 1]);
        }
        if m - 1 < u.drop_first().len() {
            assert(u.drop_first()[m - 1] == u[m]);
        }
        lemma_nonws_prefix_at(u.drop_first(), m - 1);
        assert(seq![u[0]] + u.drop_first().take(m - 1) =~= u.take(m));
    }
}

proof fn lemma_nonquote_prefix_at(u: Seq<char>, m: int)
    requires
        0 <= m <= u.len(),
        forall|k: int| 0 <= k < m ==> u[k] != '"',
        m < u.len() ==> u[m] == '"',
    ensures
        nonquote_prefix(u) == u.take(m),
    decreases m,
{
    if u.len() == 0 || u[0] == '"' {
        assert(m == 0);
        assert(u.take(0) =~= Seq::<char>::empty());
    } else {
        assert(m > 0);
        assert forall|k: int| 0 <= k < m - 1 implies u.drop_first()[k] != '"' by {
            assert(u.drop_first()[k] == u[k + 1]);
        }
        if m - 1 < u.drop_first().len() {
            assert(u.drop_first()[m - 1] == u[m]);
        }
        lemma_nonquote_prefix_at(u.drop_first(), m - 1);
        assert(seq![u[0]] + u.drop_first().take(m - 1) =~= u.take(m));
    }
}

impl CommandParser {
    /// Parses one definition line `name -key "value" ...`.  The name is
    /// the last word before the first `-`; each parameter is a dash, a
    /// key, one space and a non-empty value in double quotes, scanned left
    /// to right; a key starting with `@` is numbered in order of
    /// appearance (`@parameter` becomes `parameter_0`, `parameter_1`, ...).
    pub fn parse_command(content: String) -> (r: Option<Command>)
        ensures
            (r is Some) == (spec_line_name(content@) is Some),
            r matches Some(c) ==> spec_line_name(content@) == Some(c.name@) && pairs_view(
                c.parameters@,
            ) == numbered_pairs(scan_params(content@)),
    {
        let s = content.as_str();
        let n = s.unicode_len();

        // the first dash
        let mut d: usize = 0;
        while d < n && s.get_char(d) != '-'
            invariant
                n == s@.len(),
                d <= n,
                forall|k: int| 0 <= k < d ==> s@[k] != '-',
            decreases n - d,
        {
            d += 1;
        }
        proof {
            lemma_first_dash_at(s@, d as int);
        }
        if d == n {
            return None;
        }
        // the name: the last word before the dash, trailing whitespace dropped
        let mut e: usize = d;
        while e > 0 && space_char(s.get_char(e - 1))
            invariant
                n == s@.len(),
                e <= d <= n,
                forall|k: int| e <= k < d ==> is_space_char(s@[k]),
            decreases e,
        {
            e -= 1;
        }
        let mut b: usize = e;
        while b > 0 && !space_char(s.get_char(b - 1))
            invariant
                n == s@.len(),
                b <= e <= d <= n,
                forall|k: int| b <= k < e ==> !is_space_char(s@[k]),
            decreases b,
        {
            b -= 1;
        }
        proof {
            let t = s@.take(d as int);
            assert forall|k: int| e <= k < t.len() implies is_space_char(t[k]) by {
                assert(t[k] == s@[k]);
            }
            crate::strutil::lemma_trim_end_take(t, e as int);
            let u = t.take(e as int);
            assert(u =~= s@.take(e as int));
            if e > 0 {
                assert(u.last() == s@[e - 1]);
                assert(!is_space_char(u.last()));
            }
            assert(spec_trim_end(t) == u);
            assert forall|k: int| b <= k < u.len() implies !is_space_char(u[k]) by {
                assert(u[k] == s@[k]);
            }
            if b > 0 {
                assert(u[b - 1] == s@[b - 1]);
            }
            lemma_nonws_suffix_at(u, b as int);
            assert(u.subrange(b as int, e as int) =~= s@.subrange(b as int, e as int));
        }
        if e == b {
            return None;
        }
        let mut q: usize = b;
        while q < e
            invariant
                n == s@.len(),
                s@ == content@,
                b <= q <= e <= n,
                b < e,
                d <= n,
                first_dash(s@) == d,
                spec_trim_end(s@.take(d as int)) == s@.take(e as int),
                nonws_suffix(s@.take(e as int)) == s@.subrange(b as int, e as int),
                forall|k: int| b <= k < q ==> s@[k] != '"',
            decreases e - q,
        {
            if s.get_char(q) == '"' {
                proof {
                    assert(s@.subrange(b as int, e as int)[q - b] == s@[q as int]);
                    assert(first_dash(content@) < content@.len() || d == n);
                    if d < n {
                        assert(spec_line_name(content@) is None);
                    } else {
                        assert(first_dash(content@) == content@.len());
                    }
                }
                return None;
            }
            q += 1;
        }
        proof {
            assert forall|k: int|
                0 <= k < s@.subrange(b as int, e as int).len() implies s@.subrange(
                b as int,
                e as int,
            )[k] != '"' by {
                assert(s@.subrange(b as int, e as int)[k] == s@[b + k]);
            }
        }
        let name = String::from_str(s.substring_char(b, e));
        let mut command = Command::new(name);

        // the parameters, scanned left to right
        let mut raw: Vec<(String, String)> = Vec::new();
        let mut i: usize = 0;
        proof {
            assert(s@.skip(0) =~= s@);
            assert(pairs_view(raw@) + scan_params(s@) =~= scan_params(s@));
        }
        while i < n
            invariant
                n == s@.len(),
                i <= n,
                scan_params(s@) == pairs_view(raw@) + scan_params(s@.skip(i as int)),
            decreases n - i,
        {
            let ghost u = s@.skip(i as int);
            proof {
                assert(u[0] == s@[i as int]);
            }
            let mut next: usize = i + 1;
            if s.get_char(i) == '-' {
                // the key: a non-whitespace run after the dash
                let mut j = i + 1;
                while j < n && !space_char(s.get_char(j))
                    invariant
                        n == s@.len(),
                        i + 1 <= j <= n,
                        forall|k: int| i + 1 <= k < j ==> !is_space_char(s@[k]),
                    decreases n - j,
                {
                    j += 1;
                }
                proof {
                    let u1 = s@.skip(i as int + 1);
                    assert forall|k: int| 0 <= k < j - i - 1 implies !is_space_char(
                        u1[k],
                    ) by {
                        assert(u1[k] == s@[i + 1 + k]);
                    }
                    if j < n {
                        assert(u1[j - i - 1] == s@[j as int]);
                    }
                    lemma_nonws_prefix_at(u1, j - i - 1);
                    assert(u.skip(1) =~= u1);
                    assert(u1.take(j - i - 1) =~= s@.subrange(i as int + 1, j as int));
                }
                let ghost key_s = s@.subrange(i as int + 1, j as int);
                if j > i + 1 && n - j > 1 && s.get_char(j) == ' ' && s.get_char(j + 1) == '"' {
                    proof {
                        let rest = u.skip(1 + key_s.len() as int);
                        assert(rest =~= s@.skip(j as int));
                        assert(rest[0] == s@[j as int]);
                        assert(rest[1] == s@[j as int + 1]);
                    }
                    // the value: everything up to the closing quote
                    let mut q2 = j + 2;
                    while q2 < n && s.get_char(q2) != '"'
                        invariant
                            n == s@.len(),
                            j + 2 <= q2 <= n,
                            forall|k: int| j + 2 <= k < q2 ==> s@[k] != '"',
                        decreases n - q2,
                    {
                        q2 += 1;
                    }
                    proof {
                        let u2 = s@.skip(j as int + 2);
                        assert forall|k: int| 0 <= k < q2 - j - 2 implies u2[k] != '"' by {
                            assert(u2[k] == s@[j + 2 + k]);
                        }
                        if q2 < n {
                            assert(u2[q2 - j - 2] == s@[q2 as int]);
                        }
                        lemma_nonquote_prefix_at(u2, q2 - j - 2);
                        let rest = u.skip(1 + key_s.len() as int);
                        assert(rest.skip(2) =~= u2);
                        assert(u2.take(q2 - j - 2) =~= s@.subrange(j as int + 2, q2 as int));
                    }
                    let ghost value_s = s@.subrange(j as int + 2, q2 as int);
                    if q2 > j + 2 && q2 < n {
                        // a well-formed parameter ends at the closing quote
                        let key = String::from_str(s.substring_char(i + 1, j));
                        let value = String::from_str(s.substring_char(j + 2, q2));
                        let ghost prev = pairs_view(raw@);
                        raw.push((key, value));
                        proof {
                            assert(pairs_view(raw@) =~= prev.push((key_s, value_s)));
                            assert(param_at(u) == Option::Some(
                                (key_s, value_s, 4 + key_s.len() as int + value_s.len() as int),
                            ));
                            lemma_param_at_used(u);
                            assert(u.skip(4 + key_s.len() as int + value_s.len() as int)
                                =~= s@.skip(q2 as int + 1));
                            assert(scan_params(u) == seq![(key_s, value_s)] + scan_params(
                                s@.skip(q2 as int + 1),
                            ));
                            assert(prev.push((key_s, value_s)) + scan_params(
                                s@.skip(q2 as int + 1),
                            ) =~= prev + scan_params(u));
                        }
                        next = q2 + 1;
                    } else {
                        proof {
                            assert(param_at(u) is None);
                            assert(u.skip(1) =~= s@.skip(i as int + 1));
                        }
                        next = i + 1;
                    }
                } else {
                    proof {
                        if key_s.len() == 0 {
                            assert(param_at(u) is None);
                        } else {
                            let rest = u.skip(1 + key_s.len() as int);
                            assert(rest =~= s@.skip(j as int));
                            if rest.len() >= 2 {
                                assert(rest[0] == s@[j as int]);
                                assert(rest[1] == s@[j as int + 1]);
                            }
                            assert(param_at(u) is None);
                        }
                        assert(u.skip(1) =~= s@.skip(i as int + 1));
                    }
                    next = i + 1;
                }
            } else {
                proof {
                    assert(u.skip(1) =~= s@.skip(i as int + 1));
                    assert(scan_params(u) == scan_params(s@.skip(i as int + 1)));
                }
                next = i + 1;
            }
            i = next;
        }
        proof {
            assert(s@.skip(n as int) =~= Seq::<char>::empty());
            assert(scan_params(Seq::<char>::empty()) == Seq::<(Seq<char>, Seq<char>)>::empty());
            assert(pairs_view(raw@) + Seq::<(Seq<char>, Seq<char>)>::empty() =~= pairs_view(
                raw@,
            ));
        }

        // number the `@` keys in order of appearance
        let ghost rawv = pairs_view(raw@);
        let m = raw.len();
        let mut k: usize = 0;
        proof {
            assert(pairs_view(command.parameters@) =~= numbered_pairs(rawv).take(0));
        }
        while k < m
            invariant
                rawv == pairs_view(raw@),
                m == raw@.len(),
                k <= m,
                spec_line_name(content@) == Some(command.name@),
                pairs_view(command.parameters@) == numbered_pairs(rawv).take(k as int),
            decreases m - k,
        {
            let keylen = raw[k].0.as_str().unicode_len();
            proof {
                assert(rawv[k as int].0 == raw@[k as int].0@);
                assert(rawv[k as int].1 == raw@[k as int].1@);
            }
            let ghost prev = pairs_view(command.parameters@);
            if keylen >= 1 && raw[k].0.as_str().get_char(0) == '@' {
                let mut cnt: usize = 0;
                let mut x: usize = 0;
                while x < k
                    invariant
                        rawv == pairs_view(raw@),
                        m == raw@.len(),
                        x <= k < m,
                        cnt <= x,
                        cnt == key_count(rawv, rawv[k as int].0, x as int),
                    decreases k - x,
                {
                    if str_eq(raw[x].0.as_str(), raw[k].0.as_str()) {
                        cnt += 1;
                    }
                    proof {
                        assert(rawv[x as int].0 == raw@[x as int].0@);
                    }
                    x += 1;
                }
                let kk = raw[k].0.as_str().substring_char(1, keylen);
                let mut nk = String::from_str(kk);
                push_char(&mut nk, '_');
                let num = dec_render(cnt);
                nk.append(num.as_str());
                proof {
                    assert(kk@ =~= rawv[k as int].0.drop_first());
                    assert(nk@ =~= rawv[k as int].0.drop_first() + seq!['_'] + spec_dec_render(
                        cnt as nat,
                    ));
                    assert(numbered_pair(rawv, k as int) == (nk@, rawv[k as int].1));
                }
                command.add_parameter(nk, raw[k].1.clone());
            } else {
                proof {
                    assert(numbered_pair(rawv, k as int) == rawv[k as int]);
                }
                command.add_parameter(raw[k].0.clone(), raw[k].1.clone());
            }
            proof {
                assert(pairs_view(command.parameters@) =~= prev.push(
                    numbered_pair(rawv, k as int),
                ));
                assert(prev.push(numbered_pair(rawv, k as int)) =~= numbered_pairs(rawv).take(
                    k as int + 1,
                ));
            }
            k += 1;
        }
        proof {
            assert(numbered_pairs(rawv).take(m as int) =~= numbered_pairs(rawv));
        }
        Some(command)
    }

    /// Parses a batch of definition lines, passing over lines that declare
    /// nothing.
    pub fn parse_commands(content: &[String]) -> (r: Vec<Command>)
        ensures
            r@.len() <= content@.len(),
            parsed_from(r@, content@),
    {
        let mut v: Vec<Command> = Vec::new();
        let mut i: usize = 0;
        proof {
            assert(content@.take(0) =~= Seq::<String>::empty());
        }
        while i < content.len()
            invariant
                i <= content@.len(),
                v@.len() <= i,
                parsed_from(v@, content@.take(i as int)),
            decreases content@.len() - i,
        {
            let line = content[i].clone();
            let ghost lv = line@;
            let ghost t = content@.take(i as int + 1);
            proof {
                assert(lv == content@[i as int]@);
                assert(t.drop_last() =~= content@.take(i as int));
                assert(t.last() == content@[i as int]);
            }
            match Self::parse_command(line) {
                Some(c) => {
                    let ghost cname = c.name@;
                    let ghost cpairs = pairs_view(c.parameters@);
                    let ghost prev = v@;
                    v.push(c);
                    proof {
                        assert(parsed_models(t) =~= parsed_models(content@.take(i as int))
                            + seq![(cname, cpairs)]);
                        assert forall|x: int| #![trigger v@[x]] 0 <= x < v@.len() implies v@[x].name@
                            == parsed_models(t)[x].0 && pairs_view(v@[x].parameters@)
                            == parsed_models(t)[x].1 by {
                            if x < prev.len() {
                                assert(v@[x] == prev[x]);
                                assert(parsed_models(t)[x] == parsed_models(
                                    content@.take(i as int),
                                )[x]);
                            } else {
                                assert(v@[x].name@ == cname);
                                assert(pairs_view(v@[x].parameters@) == cpairs);
                                assert(parsed_models(t)[x] == (cname, cpairs));
                            }
                        }
                    }
                },
                None => {
                    proof {
                        assert(parsed_models(t) =~= parsed_models(content@.take(i as int)));
                    }
                },
            }
            i += 1;
        }
        proof {
            assert(content@.take(content@.len() as int) =~= content@);
        }
        v
    }
}

} // verus!
