//! The command registry: device profiles keyed by identifier, a current
//! profile that streamed-in definitions target, and alias resolution.

use vstd::prelude::*;

use crate::command_parser::{numbered_key, pairs_view, spec_lookup, Command};
use crate::midi_command::{cmd_eq, token_mask, token_val, MalformedParameterError, MidiCommand,
    MidiParameter};
use crate::strutil::concat_str;
use crate::strutil::{all_dec_digits, dec_val, spec_split, spec_trim, str_eq};
use crate::synth::Synth;
use vstd::pervasive::VecAdditionalExecFns;

verus! {

broadcast use vstd::string::group_string_axioms;

/// Errors of definition processing.
#[derive(Debug, Clone, Copy, PartialEq, Eq, Structural)]
pub enum ConfigError {
    /// A command definition arrived before any profile was selected.
    NoCurrentProfile,
    /// A definition lacks a required parameter.
    MissingParameter,
    /// A parameter declaration of a command definition is malformed.
    MalformedParameter(MalformedParameterError),
    /// A folder definition names neither `relative` nor `absolute`.
    BadFolderType,
}

/// What processing one definition asks of the caller.
#[derive(Debug)]
pub enum RunOutcome {
    /// The definition was applied to the registry.
    Handled,
    /// A `source` definition asks the caller to load this file.
    SourceFile(String),
}

/// The parsed fields of one parameter declaration.
pub ghost struct ParamV {
    pub key: Seq<char>,
    pub size: nat,
    pub name: Seq<char>,
}

/// The parameter declaration `t` parses to, if well-formed: the fields of
/// `key : width : label`, each trimmed, extra fields ignored.
pub open spec fn parse_param_spec(t: Seq<char>) -> Option<ParamV> {
    let parts = spec_split(t, ':');
    if parts.len() < 3 {
        None
    } else {
        let w = spec_trim(parts[1]);
        if w.len() > 0 && all_dec_digits(w) && dec_val(w) <= usize::MAX {
            Some(
                ParamV {
                    key: spec_trim(parts[0]),
                    size: dec_val(w),
                    name: spec_trim(parts[2]),
                },
            )
        } else {
            None
        }
    }
}

/// The parameters a command definition declares under `parameter_0`,
/// `parameter_1`, ...: collected in order until a number is missing, the
/// first malformed declaration reported instead.  `fuel` bounds the search;
/// callers pass the definition's binding count, which no run of distinct
/// present keys can exceed.
pub open spec fn collect_params_rec(
    pp: Seq<(Seq<char>, Seq<char>)>,
    i: nat,
    fuel: nat,
) -> Result<Seq<ParamV>, MalformedParameterError>
    decreases fuel,
{
    if fuel == 0 {
        Ok(Seq::empty())
    } else {
        match spec_lookup(pp, numbered_key("parameter"@, i)) {
            Option::None => Ok(Seq::empty()),
            Option::Some(t) => match parse_param_spec(t) {
                Option::None => Err(
                    if spec_split(t, ':').len() < 3 {
                        MalformedParameterError::TooFewFields
                    } else {
                        MalformedParameterError::BadWidth
                    },
                ),
                Option::Some(p) => match collect_params_rec(pp, (i + 1) as nat, (fuel - 1) as nat) {
                    Ok(rest) => Ok(seq![p] + rest),
                    Err(e) => Err(e),
                },
            },
        }
    }
}

/// The index of the first profile with identifier `id`, or the length when
/// none has it.
pub open spec fn synth_idx(synths: Seq<Synth>, id: Seq<char>) -> int
    decreases synths.len(),
{
    if synths.len() == 0 {
        0
    } else if synths[0].id@ == id {
        0
    } else {
        1 + synth_idx(synths.drop_first(), id)
    }
}

pub proof fn lemma_synth_idx_char(synths: Seq<Synth>, id: Seq<char>)
    ensures
        0 <= synth_idx(synths, id) <= synths.len(),
        synth_idx(synths, id) < synths.len() ==> synths[synth_idx(synths, id)].id@ == id,
        forall|j: int| 0 <= j < synth_idx(synths, id) ==> synths[j].id@ != id,
    decreases synths.len(),
{
    if synths.len() > 0 && synths[0].id@ != id {
        lemma_synth_idx_char(synths.drop_first(), id);
        let rest = synths.drop_first();
        let k = synth_idx(rest, id);
        assert forall|j: int| 0 <= j < 1 + k implies synths[j].id@ != id by {
            if j > 0 {
                assert(rest[j - 1].id@ != id);
            }
        }
    }
}

/// A profile as `define_profile` creates it.
pub open spec fn fresh_profile(s: Synth, id: Seq<char>, name: Seq<char>, man: Seq<char>) -> bool {
    s.id@ == id && s.name@ == name && s.manufacturer@ == man && s.commands@.len() == 0
}

/// The profile list after a profile with identifier `id` is defined: the
/// first profile with that identifier is replaced whole, or a new one is
/// appended.
pub open spec fn profile_upserted(
    olds: Seq<Synth>,
    news: Seq<Synth>,
    id: Seq<char>,
    name: Seq<char>,
    man: Seq<char>,
) -> bool {
    let k = synth_idx(olds, id);
    if k < olds.len() {
        news.len() == olds.len() && (forall|j: int|
            0 <= j < olds.len() && j != k ==> news[j] == olds[j]) && fresh_profile(
            news[k],
            id,
            name,
            man,
        )
    } else {
        news.len() == olds.len() + 1 && (forall|j: int| 0 <= j < olds.len() ==> news[j] == olds[j])
            && fresh_profile(news[olds.len() as int], id, name, man)
    }
}

/// The codec a command definition compiles to.
pub open spec fn defined_codec(
    c: MidiCommand,
    name: Seq<char>,
    midi: Seq<char>,
    aliases_text: Seq<char>,
    params: Seq<ParamV>,
) -> bool {
    &&& c.name@ == name
    &&& c.midi@ == midi
    &&& c.aliases.deep_view() == spec_split(aliases_text, ' ').map_values(
        |t: Seq<char>| spec_trim(t),
    )
    &&& c.parameters@.len() == params.len()
    &&& (forall|k: int|
        0 <= k < params.len() ==> c.parameters@[k].key@ == params[k].key && c.parameters@[k].size
            == params[k].size && c.parameters@[k].name@ == params[k].name)
    &&& c.mask@ == spec_split(midi, ' ').map_values(|t: Seq<char>| token_mask(t))
    &&& c.masked_val@ == spec_split(midi, ' ').map_values(|t: Seq<char>| token_val(t))
}

/// The parsed view of one parameter value.
pub open spec fn param_v(p: MidiParameter) -> ParamV {
    ParamV { key: p.key@, size: p.size as nat, name: p.name@ }
}

/// The sequence `o` holds, or the empty sequence.
pub open spec fn opt_or_empty(o: Option<Seq<char>>) -> Seq<char> {
    match o {
        Option::Some(s) => s,
        Option::None => Seq::empty(),
    }
}

/// What a `synth` definition does: without an `id` parameter it is
/// rejected; otherwise the profile is created or replaced, with name and
/// manufacturer taken from the definition where given, and becomes current.
pub open spec fn synth_branch(
    pre: Config,
    post: Config,
    pp: Seq<(Seq<char>, Seq<char>)>,
    r: Result<RunOutcome, ConfigError>,
) -> bool {
    match spec_lookup(pp, "id"@) {
        Option::None => post == pre && r == Err::<RunOutcome, ConfigError>(
            ConfigError::MissingParameter,
        ),
        Option::Some(id) => {
            &&& r matches Ok(RunOutcome::Handled)
            &&& post.current_synth@ == id
            &&& post.current_folder == pre.current_folder
            &&& profile_upserted(
                pre.synths@,
                post.synths@,
                id,
                opt_or_empty(spec_lookup(pp, "name"@)),
                opt_or_empty(spec_lookup(pp, "manufacturer"@)),
            )
        },
    }
}

/// What a `command` definition does: rejected while no current profile is
/// selected; its `name`, `alias` and `midi` parameters are required, its
/// numbered `parameter` declarations are parsed in order, and the compiled
/// codec is appended to the current profile.
pub open spec fn command_branch(
    pre: Config,
    post: Config,
    pp: Seq<(Seq<char>, Seq<char>)>,
    r: Result<RunOutcome, ConfigError>,
) -> bool {
    let k = synth_idx(pre.synths@, pre.current_synth@);
    if pre.current_synth@.len() == 0 || k >= pre.synths@.len() {
        post == pre && r == Err::<RunOutcome, ConfigError>(ConfigError::NoCurrentProfile)
    } else {
        match spec_lookup(pp, "name"@) {
            Option::None => post == pre && r == Err::<RunOutcome, ConfigError>(
                ConfigError::MissingParameter,
            ),
            Option::Some(namev) => match spec_lookup(pp, "alias"@) {
                Option::None => post == pre && r == Err::<RunOutcome, ConfigError>(
                    ConfigError::MissingParameter,
                ),
                Option::Some(aliasv) => match spec_lookup(pp, "midi"@) {
                    Option::None => post == pre && r == Err::<RunOutcome, ConfigError>(
                        ConfigError::MissingParameter,
                    ),
                    Option::Some(midiv) => match collect_params_rec(pp, 0, pp.len()) {
                        Err(e) => post == pre && r == Err::<RunOutcome, ConfigError>(
                            ConfigError::MalformedParameter(e),
                        ),
                        Ok(ps) => {
                            &&& r matches Ok(RunOutcome::Handled)
                            &&& post.current_synth == pre.current_synth
                            &&& post.current_folder == pre.current_folder
                            &&& post.synths@.len() == pre.synths@.len()
                            &&& (forall|j: int|
                                0 <= j < pre.synths@.len() && j != k ==> post.synths@[j]
                                    == pre.synths@[j])
                            &&& post.synths@[k].id == pre.synths@[k].id
                            &&& post.synths@[k].name == pre.synths@[k].name
                            &&& post.synths@[k].manufacturer == pre.synths@[k].manufacturer
                            &&& post.synths@[k].commands@.len() == pre.synths@[k].commands@.len()
                                + 1
                            &&& (forall|j: int|
                                0 <= j < pre.synths@[k].commands@.len() ==> post.synths@[k].commands@[j]
                                    == pre.synths@[k].commands@[j])
                            &&& defined_codec(
                                post.synths@[k].commands@.last(),
                                namev,
                                midiv,
                                aliasv,
                                ps,
                            )
                        },
                    },
                },
            },
        }
    }
}

/// What a `source` definition does: nothing to the registry; the folder
/// prefix joined with the file argument is handed back for the caller to
/// load.
pub open spec fn source_branch(
    pre: Config,
    post: Config,
    pp: Seq<(Seq<char>, Seq<char>)>,
    r: Result<RunOutcome, ConfigError>,
) -> bool {
    &&& post == pre
    &&& if pp.len() == 0 {
        r == Err::<RunOutcome, ConfigError>(ConfigError::MissingParameter)
    } else {
        r matches Ok(RunOutcome::SourceFile(p)) && p@ == pre.current_folder@ + pp[0].1
    }
}

/// What a `folder` definition does: its `type` parameter is required and
/// must name `relative` or `absolute`; either clears the folder prefix.
pub open spec fn folder_branch(
    pre: Config,
    post: Config,
    pp: Seq<(Seq<char>, Seq<char>)>,
    r: Result<RunOutcome, ConfigError>,
) -> bool {
    match spec_lookup(pp, "type"@) {
        Option::None => post == pre && r == Err::<RunOutcome, ConfigError>(
            ConfigError::MissingParameter,
        ),
        Option::Some(t) => if t == "relative"@ || t == "absolute"@ {
            &&& post.synths == pre.synths
            &&& post.current_synth == pre.current_synth
            &&& post.current_folder@ == Seq::<char>::empty()
            &&& r matches Ok(RunOutcome::Handled)
        } else {
            post == pre && r == Err::<RunOutcome, ConfigError>(ConfigError::BadFolderType)
        },
    }
}

/// The registry: profiles in definition order, the folder prefix for
/// `source` definitions, and the identifier of the current profile.
pub struct Config {
    pub synths: Vec<Synth>,
    pub current_folder: String,
    pub current_synth: String,
}

impl Config {
    pub fn new() -> (r: Config)
        ensures
            r.synths@ == Seq::<Synth>::empty(),
            r.current_folder@ == Seq::<char>::empty(),
            r.current_synth@ == Seq::<char>::empty(),
    {
        Config { synths: Vec::new(), current_folder: String::new(), current_synth: String::new() }
    }

    /// Whether a profile with identifier `synth` exists.
    pub fn has_synth(&self, synth: &str) -> (r: bool)
        ensures
            r == exists|i: int| 0 <= i < self.synths@.len() && self.synths@[i].id@ == synth@,
    {
        let n = self.synths.len();
        let mut i: usize = 0;
        while i < n
            invariant
                n == self.synths@.len(),
                i <= n,
                forall|k: int| 0 <= k < i ==> self.synths@[k].id@ != synth@,
            decreases n - i,
        {
            if str_eq(self.synths[i].id.as_str(), synth) {
                return true;
            }
            i += 1;
        }
        false
    }

    /// The index of the first profile with identifier `id`, if any.
    fn find_synth(&self, id: &str) -> (r: Option<usize>)
        ensures
            ({
                let k = synth_idx(self.synths@, id@);
                match r {
                    Some(i) => i == k && k < self.synths@.len(),
                    None => k == self.synths@.len(),
                }
            }),
    {
        proof {
            lemma_synth_idx_char(self.synths@, id@);
        }
        let n = self.synths.len();
        let mut i: usize = 0;
        while i < n
            invariant
                n == self.synths@.len(),
                i <= n,
                forall|k: int| 0 <= k < i ==> self.synths@[k].id@ != id@,
            decreases n - i,
        {
            if str_eq(self.synths[i].id.as_str(), id) {
                proof {
                    lemma_synth_idx_char(self.synths@, id@);
                    assert(self.synths@[i as int].id@ == id@);
                    if synth_idx(self.synths@, id@) < i {
                        assert(self.synths@[synth_idx(self.synths@, id@)].id@ != id@);
                    }
                }
                return Some(i);
            }
            i += 1;
        }
        proof {
            lemma_synth_idx_char(self.synths@, id@);
            if synth_idx(self.synths@, id@) < n {
                assert(self.synths@[synth_idx(self.synths@, id@)].id@ == id@);
            }
        }
        None
    }

    /// Creates or wholly replaces the profile with identifier `id` and
    /// makes it the target of subsequent command definitions.
    pub fn define_profile(&mut self, id: String, name: String, manufacturer: String)
        ensures
            profile_upserted(old(self).synths@, final(self).synths@, id@, name@, manufacturer@),
            final(self).current_synth == id,
            final(self).current_folder == old(self).current_folder,
    {
        let s = Synth::new(name, id.clone(), manufacturer);
        let found = self.find_synth(id.as_str());
        match found {
            Some(k) => {
                self.synths.set(k, s);
            },
            None => {
                self.synths.push(s);
            },
        }
        self.current_synth = id;
    }

    /// Appends a codec, compiled from a definition's parts, to the current
    /// profile; rejected while no current profile is selected.
    pub fn define_command(
        &mut self,
        name: String,
        midi: String,
        aliases_text: String,
        params: Vec<MidiParameter>,
    ) -> (r: Result<(), ConfigError>)
        ensures
            ({
                let k = synth_idx(old(self).synths@, old(self).current_synth@);
                &&& (old(self).current_synth@.len() == 0 || k >= old(self).synths@.len() ==> r
                    == Err::<(), ConfigError>(ConfigError::NoCurrentProfile) && *final(self)
                    == *old(self))
                &&& (old(self).current_synth@.len() > 0 && k < old(self).synths@.len() ==> ({
                    &&& r == Ok::<(), ConfigError>(())
                    &&& final(self).current_synth == old(self).current_synth
                    &&& final(self).current_folder == old(self).current_folder
                    &&& final(self).synths@.len() == old(self).synths@.len()
                    &&& (forall|j: int|
                        0 <= j < old(self).synths@.len() && j != k ==> final(self).synths@[j]
                            == old(self).synths@[j])
                    &&& final(self).synths@[k].id == old(self).synths@[k].id
                    &&& final(self).synths@[k].name == old(self).synths@[k].name
                    &&& final(self).synths@[k].manufacturer == old(self).synths@[k].manufacturer
                    &&& final(self).synths@[k].commands@ == old(self).synths@[k].commands@.push(
                        final(self).synths@[k].commands@.last(),
                    )
                    &&& ({
                        let c = final(self).synths@[k].commands@.last();
                        &&& c.name == name
                        &&& c.midi == midi
                        &&& c.aliases.deep_view() == spec_split(aliases_text@, ' ').map_values(
                            |t: Seq<char>| spec_trim(t),
                        )
                        &&& c.parameters@ == params@
                        &&& c.mask@ == spec_split(midi@, ' ').map_values(
                            |t: Seq<char>| token_mask(t),
                        )
                        &&& c.masked_val@ == spec_split(midi@, ' ').map_values(
                            |t: Seq<char>| token_val(t),
                        )
                    })
                }))
            }),
    {
        if self.current_synth.unicode_len() == 0 {
            return Err(ConfigError::NoCurrentProfile);
        }
        let found = self.find_synth(self.current_synth.as_str());
        match found {
            None => Err(ConfigError::NoCurrentProfile),
            Some(k) => {
                let mut c = MidiCommand::new(name);
                c.midi = midi;
                c.add_aliases(aliases_text);
                c.parameters = params;
                c.compile();
                let mut s = Synth::from_id(String::new());
                self.synths.set_and_swap(k, &mut s);
                s.commands.push(c);
                self.synths.set(k, s);
                proof {
                    assert(final(self).synths@[k as int].commands@ =~= old(
                        self,
                    ).synths@[k as int].commands@.push(
                        final(self).synths@[k as int].commands@.last(),
                    ));
                }
                Ok(())
            },
        }
    }

    /// Applies one parsed definition to the registry: `synth` defines a
    /// profile, `command` appends a codec to the current profile, `folder`
    /// resets the folder prefix, `source` asks the caller to load a file,
    /// and any other definition is ignored.  Errors leave the registry
    /// unchanged and processing of later definitions may continue.
    pub fn run_command(&mut self, command: &Command) -> (r: Result<RunOutcome, ConfigError>)
        ensures
            ({
                let pp = pairs_view(command.parameters@);
                let cname = command.name@;
                &&& (cname == "synth"@ ==> synth_branch(*old(self), *final(self), pp, r))
                &&& (cname == "command"@ ==> command_branch(*old(self), *final(self), pp, r))
                &&& (cname == "source"@ ==> source_branch(*old(self), *final(self), pp, r))
                &&& (cname == "folder"@ ==> folder_branch(*old(self), *final(self), pp, r))
                &&& (cname != "synth"@ && cname != "command"@ && cname != "source"@ && cname
                    != "folder"@ ==> *final(self) == *old(self) && (r matches Ok(
                    RunOutcome::Handled,
                )))
            }),
    {
        let ghost pp = pairs_view(command.parameters@);
        proof {
            reveal_strlit("synth");
            reveal_strlit("command");
            reveal_strlit("source");
            reveal_strlit("folder");
            assert("synth"@.len() == 5);
            assert("command"@.len() == 7);
            assert("source"@.len() == 6);
            assert("folder"@.len() == 6);
            assert("source"@[0] == 's');
            assert("folder"@[0] == 'f');
            assert("synth"@ != "command"@);
            assert("synth"@ != "source"@);
            assert("synth"@ != "folder"@);
            assert("command"@ != "source"@);
            assert("command"@ != "folder"@);
            assert("source"@ != "folder"@);
        }
        if str_eq(command.name.as_str(), "synth") {
            let id = match command.get_parameter("id") {
                Some(v) => v.clone(),
                None => {
                    return Err(ConfigError::MissingParameter);
                },
            };
            let name = match command.get_parameter("name") {
                Some(v) => v.clone(),
                None => String::new(),
            };
            let manufacturer = match command.get_parameter("manufacturer") {
                Some(v) => v.clone(),
                None => String::new(),
            };
            self.define_profile(id, name, manufacturer);
            Ok(RunOutcome::Handled)
        } else if str_eq(command.name.as_str(), "command") {
            if self.current_synth.unicode_len() == 0 {
                return Err(ConfigError::NoCurrentProfile);
            }
            if self.find_synth(self.current_synth.as_str()).is_none() {
                return Err(ConfigError::NoCurrentProfile);
            }
            let name = match command.get_parameter("name") {
                Some(v) => v.clone(),
                None => {
                    return Err(ConfigError::MissingParameter);
                },
            };
            let aliases_text = match command.get_parameter("alias") {
                Some(v) => v.clone(),
                None => {
                    return Err(ConfigError::MissingParameter);
                },
            };
            let midi = match command.get_parameter("midi") {
                Some(v) => v.clone(),
                None => {
                    return Err(ConfigError::MissingParameter);
                },
            };
            let bound = command.parameters.len();
            let mut params: Vec<MidiParameter> = Vec::new();
            let mut i: usize = 0;
            let mut done = false;
            let mut perr: Option<MalformedParameterError> = None;
            proof {
                assert(pp.len() == bound as nat);
            }
            while i < bound && !done
                invariant
                    pp == pairs_view(command.parameters@),
                    bound == command.parameters@.len(),
                    pp.len() == bound as nat,
                    i <= bound,
                    !done ==> perr is None && ({
                        match collect_params_rec(pp, i as nat, (bound - i) as nat) {
                            Ok(rest) => collect_params_rec(pp, 0, bound as nat) == Ok::<
                                Seq<ParamV>,
                                MalformedParameterError,
                            >(params@.map_values(|q: MidiParameter| param_v(q)) + rest),
                            Err(e) => collect_params_rec(pp, 0, bound as nat) == Err::<
                                Seq<ParamV>,
                                MalformedParameterError,
                            >(e),
                        }
                    }),
                    done && perr is None ==> collect_params_rec(pp, 0, bound as nat) == Ok::<
                        Seq<ParamV>,
                        MalformedParameterError,
                    >(params@.map_values(|q: MidiParameter| param_v(q))),
                    done && perr is Some ==> collect_params_rec(pp, 0, bound as nat) == Err::<
                        Seq<ParamV>,
                        MalformedParameterError,
                    >(perr->Some_0),
                decreases bound - i + (if done { 0int } else { 1int }),
            {
                match command.get_numbered_parameter("parameter", i) {
                    None => {
                        proof {
                            assert(collect_params_rec(pp, i as nat, (bound - i) as nat) == Ok::<
                                Seq<ParamV>,
                                MalformedParameterError,
                            >(Seq::empty()));
                            assert(params@.map_values(|q: MidiParameter| param_v(q))
                                + Seq::<ParamV>::empty() =~= params@.map_values(
                                |q: MidiParameter| param_v(q),
                            ));
                        }
                        done = true;
                    },
                    Some(t) => {
                        let ghost tv = t@;
                        match MidiParameter::new_parse(t.as_str()) {
                            Err(e) => {
                                proof {
                                    assert(parse_param_spec(tv) is None);
                                    assert(collect_params_rec(pp, i as nat, (bound - i) as nat)
                                        matches Err(e2) && e2 == e);
                                }
                                perr = Some(e);
                                done = true;
                            },
                            Ok(p) => {
                                proof {
                                    assert(parse_param_spec(tv) == Option::Some(param_v(p)));
                                }
                                let ghost prevmap = params@.map_values(
                                    |q: MidiParameter| param_v(q),
                                );
                                params.push(p);
                                proof {
                                    assert(params@.map_values(|q: MidiParameter| param_v(q))
                                        =~= prevmap.push(param_v(p)));
                                    let r2 = collect_params_rec(
                                        pp,
                                        (i + 1) as nat,
                                        (bound - (i + 1)) as nat,
                                    );
                                    if r2 is Ok {
                                        let rest2 = r2->Ok_0;
                                        assert(prevmap + (seq![param_v(p)] + rest2)
                                            =~= prevmap.push(param_v(p)) + rest2);
                                    }
                                }
                                i += 1;
                            },
                        }
                    },
                }
            }
            proof {
                if !done {
                    assert(collect_params_rec(pp, i as nat, 0) == Ok::<
                        Seq<ParamV>,
                        MalformedParameterError,
                    >(Seq::empty()));
                    assert(params@.map_values(|q: MidiParameter| param_v(q))
                        + Seq::<ParamV>::empty() =~= params@.map_values(
                        |q: MidiParameter| param_v(q),
                    ));
                }
            }
            match perr {
                Some(e) => {
                    return Err(ConfigError::MalformedParameter(e));
                },
                None => {},
            }
            match self.define_command(name, midi, aliases_text, params) {
                Ok(()) => Ok(RunOutcome::Handled),
                Err(e) => Err(e),
            }
        } else if str_eq(command.name.as_str(), "source") {
            match command.get_parameter_from_index(0) {
                None => Err(ConfigError::MissingParameter),
                Some(f) => {
                    let path = concat_str(self.current_folder.as_str(), f.as_str());
                    Ok(RunOutcome::SourceFile(path))
                },
            }
        } else if str_eq(command.name.as_str(), "folder") {
            match command.get_parameter("type") {
                None => Err(ConfigError::MissingParameter),
                Some(t) => {
                    if str_eq(t.as_str(), "relative") || str_eq(t.as_str(), "absolute") {
                        self.current_folder = String::new();
                        Ok(RunOutcome::Handled)
                    } else {
                        Err(ConfigError::BadFolderType)
                    }
                },
            }
        } else {
            Ok(RunOutcome::Handled)
        }
    }
}

} // verus!

verus! {

/// The codecs of every profile, flattened in profile order.
pub open spec fn all_commands(synths: Seq<Synth>) -> Seq<MidiCommand>
    decreases synths.len(),
{
    if synths.len() == 0 {
        Seq::empty()
    } else {
        all_commands(synths.drop_last()) + synths.last().commands@
    }
}

/// The lookup names of a codec: its canonical name, then its aliases.
pub open spec fn keys_of(c: MidiCommand) -> Seq<Seq<char>> {
    seq![c.name@] + c.aliases@.map_values(|a: String| a@)
}

/// `m` with every name of `keys` mapped to `i`.
pub open spec fn insert_keys(m: Map<Seq<char>, int>, keys: Seq<Seq<char>>, i: int) -> Map<
    Seq<char>,
    int,
>
    decreases keys.len(),
{
    if keys.len() == 0 {
        m
    } else {
        insert_keys(m.insert(keys[0], i), keys.drop_first(), i)
    }
}

/// The alias table of the first `n` codecs, as a map from lookup name to
/// the index of the codec it resolves to; a later codec's names overwrite
/// an earlier codec's.
pub open spec fn alias_map_upto(cmds: Seq<MidiCommand>, n: int) -> Map<Seq<char>, int>
    decreases n,
{
    if n <= 0 {
        Map::empty()
    } else {
        insert_keys(alias_map_upto(cmds, n - 1), keys_of(cmds[n - 1]), n - 1)
    }
}

/// The alias table of a profile's codecs.
pub open spec fn alias_map(cmds: Seq<MidiCommand>) -> Map<Seq<char>, int> {
    alias_map_upto(cmds, cmds.len() as int)
}

/// A concrete alias table `t` realizes the map `m` over the codecs `cmds`:
/// every entry's name is mapped to the index of a codec its value copies,
/// every mapped name has an entry, and no name appears twice.
pub open spec fn realizes(
    t: Seq<(String, MidiCommand)>,
    m: Map<Seq<char>, int>,
    cmds: Seq<MidiCommand>,
) -> bool {
    &&& (forall|x: int|
        0 <= x < t.len() ==> m.contains_key(#[trigger] t[x].0@) && 0 <= m[t[x].0@] < cmds.len()
            && cmd_eq(t[x].1, cmds[m[t[x].0@]]))
    &&& (forall|key: Seq<char>|
        m.contains_key(key) ==> exists|x: int| 0 <= x < t.len() && #[trigger] t[x].0@ == key)
    &&& (forall|x: int, y: int| 0 <= x < y < t.len() ==> t[x].0@ != t[y].0@)
}

pub proof fn lemma_insert_keys_val(m: Map<Seq<char>, int>, keys: Seq<Seq<char>>, i: int, a: Seq<char>)
    ensures
        insert_keys(m, keys, i).contains_key(a) <==> (m.contains_key(a) || keys.contains(a)),
        insert_keys(m, keys, i).contains_key(a) ==> insert_keys(m, keys, i)[a] == (
        if keys.contains(a) {
            i
        } else {
            m[a]
        }),
    decreases keys.len(),
{
    if keys.len() > 0 {
        lemma_insert_keys_val(m.insert(keys[0], i), keys.drop_first(), i, a);
        if keys.contains(a) {
            let w = choose|w: int| 0 <= w < keys.len() && keys[w] == a;
            if w > 0 {
                assert(keys.drop_first()[w - 1] == a);
                assert(keys.drop_first().contains(a));
            }
        }
        if keys.drop_first().contains(a) {
            let w = choose|w: int| 0 <= w < keys.drop_first().len() && keys.drop_first()[w] == a;
            assert(keys[w + 1] == a);
            assert(keys.contains(a));
        }
        if keys[0] == a {
            assert(keys.contains(a));
        }
    }
}

/// Resolution of name `a` among the first `n` codecs: it resolves exactly
/// when some of them carries it, and then to the last one that does.
pub proof fn lemma_alias_map_last(cmds: Seq<MidiCommand>, a: Seq<char>, n: int)
    requires
        0 <= n <= cmds.len(),
    ensures
        alias_map_upto(cmds, n).contains_key(a) <==> exists|idx: int|
            0 <= idx < n && #[trigger] keys_of(cmds[idx]).contains(a),
        alias_map_upto(cmds, n).contains_key(a) ==> ({
            let v = alias_map_upto(cmds, n)[a];
            &&& 0 <= v < n
            &&& keys_of(cmds[v]).contains(a)
            &&& forall|idx: int| v < idx < n ==> !(#[trigger] keys_of(cmds[idx]).contains(a))
        }),
    decreases n,
{
    if n > 0 {
        lemma_alias_map_last(cmds, a, n - 1);
        lemma_insert_keys_val(alias_map_upto(cmds, n - 1), keys_of(cmds[n - 1]), n - 1, a);
    }
}

/// Alias resolution precedence: when two codecs of a profile share a
/// lookup name and no later codec carries it, the alias table resolves
/// that name to the later of the two.
pub proof fn lemma_alias_resolution_precedence(
    cmds: Seq<MidiCommand>,
    a: Seq<char>,
    i: int,
    j: int,
)
    requires
        0 <= i < j < cmds.len(),
        keys_of(cmds[i]).contains(a),
        keys_of(cmds[j]).contains(a),
        forall|l: int| j < l < cmds.len() ==> !(#[trigger] keys_of(cmds[l]).contains(a)),
    ensures
        alias_map(cmds).contains_key(a),
        alias_map(cmds)[a] == j,
{
    lemma_alias_map_last(cmds, a, cmds.len() as int);
    let v = alias_map(cmds)[a];
    if v < j {
        assert(keys_of(cmds[j]).contains(a));
    }
}

/// The index of the first entry of `t` whose name is `key`, or the length
/// when none has it.
pub open spec fn tkey_idx(t: Seq<(String, MidiCommand)>, key: Seq<char>) -> int
    decreases t.len(),
{
    if t.len() == 0 {
        0
    } else if t[0].0@ == key {
        0
    } else {
        1 + tkey_idx(t.drop_first(), key)
    }
}

proof fn lemma_tkey_idx_char(t: Seq<(String, MidiCommand)>, key: Seq<char>)
    ensures
        0 <= tkey_idx(t, key) <= t.len(),
        tkey_idx(t, key) < t.len() ==> t[tkey_idx(t, key)].0@ == key,
        forall|j: int| 0 <= j < tkey_idx(t, key) ==> t[j].0@ != key,
    decreases t.len(),
{
    if t.len() > 0 && t[0].0@ != key {
        lemma_tkey_idx_char(t.drop_first(), key);
        let rest = t.drop_first();
        let k = tkey_idx(rest, key);
        assert forall|j: int| 0 <= j < 1 + k implies t[j].0@ != key by {
            if j > 0 {
                assert(rest[j - 1].0@ != key);
            }
        }
    }
}

/// Binds `key` to a copy of `c` in the table: the first entry already
/// using the name is replaced, otherwise a new entry is appended.
fn table_insert(tbl: &mut Vec<(String, MidiCommand)>, key: &String, c: &MidiCommand)
    ensures
        ({
            let k = tkey_idx(old(tbl)@, key@);
            if k < old(tbl)@.len() {
                &&& final(tbl)@.len() == old(tbl)@.len()
                &&& (forall|j: int|
                    0 <= j < old(tbl)@.len() && j != k ==> final(tbl)@[j] == old(tbl)@[j])
                &&& final(tbl)@[k].0@ == key@
                &&& cmd_eq(final(tbl)@[k].1, *c)
            } else {
                &&& final(tbl)@.len() == old(tbl)@.len() + 1
                &&& (forall|j: int| 0 <= j < old(tbl)@.len() ==> final(tbl)@[j] == old(tbl)@[j])
                &&& final(tbl)@[old(tbl)@.len() as int].0@ == key@
                &&& cmd_eq(final(tbl)@[old(tbl)@.len() as int].1, *c)
            }
        }),
{
    proof {
        lemma_tkey_idx_char(tbl@, key@);
    }
    let n = tbl.len();
    let mut x: usize = 0;
    while x < n
        invariant
            tbl@ == old(tbl)@,
            n == tbl@.len(),
            x <= n,
            forall|j: int| 0 <= j < x ==> tbl@[j].0@ != key@,
        decreases n - x,
    {
        if str_eq(tbl[x].0.as_str(), key.as_str()) {
            proof {
                lemma_tkey_idx_char(tbl@, key@);
                assert(tbl@[x as int].0@ == key@);
                if tkey_idx(tbl@, key@) < x {
                    assert(tbl@[tkey_idx(tbl@, key@)].0@ != key@);
                }
            }
            tbl.set(x, (key.clone(), c.clone()));
            return ;
        }
        x += 1;
    }
    proof {
        lemma_tkey_idx_char(tbl@, key@);
        if tkey_idx(tbl@, key@) < n {
            assert(tbl@[tkey_idx(tbl@, key@)].0@ == key@);
        }
    }
    tbl.push((key.clone(), c.clone()));
}

proof fn lemma_realizes_insert(
    t1: Seq<(String, MidiCommand)>,
    t2: Seq<(String, MidiCommand)>,
    m: Map<Seq<char>, int>,
    cmds: Seq<MidiCommand>,
    key: Seq<char>,
    ci: int,
    c: MidiCommand,
)
    requires
        realizes(t1, m, cmds),
        0 <= ci < cmds.len(),
        cmd_eq(c, cmds[ci]),
        ({
            let k = tkey_idx(t1, key);
            if k < t1.len() {
                &&& t2.len() == t1.len()
                &&& (forall|j: int| 0 <= j < t1.len() && j != k ==> t2[j] == t1[j])
                &&& t2[k].0@ == key
                &&& cmd_eq(t2[k].1, c)
            } else {
                &&& t2.len() == t1.len() + 1
                &&& (forall|j: int| 0 <= j < t1.len() ==> t2[j] == t1[j])
                &&& t2[t1.len() as int].0@ == key
                &&& cmd_eq(t2[t1.len() as int].1, c)
            }
        }),
    ensures
        realizes(t2, m.insert(key, ci), cmds),
{
    lemma_tkey_idx_char(t1, key);
    let k = tkey_idx(t1, key);
    let m2 = m.insert(key, ci);
    assert forall|x: int| 0 <= x < t2.len() implies m2.contains_key(#[trigger] t2[x].0@) && 0
        <= m2[t2[x].0@] < cmds.len() && cmd_eq(t2[x].1, cmds[m2[t2[x].0@]]) by {
        if x == k || (k >= t1.len() && x == t1.len()) {
            assert(t2[x].0@ == key);
        } else {
            assert(t2[x] == t1[x]);
            if t1[x].0@ == key {
                if x < k {
                    assert(t1[x].0@ != key);
                } else if k < t1.len() {
                    assert(t1[k].0@ == key);
                    assert(t1[x].0@ != t1[k].0@ || x == k);
                }
            }
            assert(t1[x].0@ != key);
        }
    }
    assert forall|kk: Seq<char>| m2.contains_key(kk) implies exists|x: int|
        0 <= x < t2.len() && #[trigger] t2[x].0@ == kk by {
        if kk == key {
            if k < t1.len() {
                assert(t2[k].0@ == kk);
            } else {
                assert(t2[t1.len() as int].0@ == kk);
            }
        } else {
            assert(m.contains_key(kk));
            let x = choose|x: int| 0 <= x < t1.len() && #[trigger] t1[x].0@ == kk;
            assert(t1[x].0@ == kk);
            if x != k {
                assert(t2[x] == t1[x]);
                assert(t2[x].0@ == kk);
            } else {
                assert(t1[k].0@ == key);
            }
        }
    }
    assert forall|x: int, y: int| 0 <= x < y < t2.len() implies t2[x].0@ != t2[y].0@ by {
        if k < t1.len() {
            if x != k && y != k {
                assert(t2[x] == t1[x]);
                assert(t2[y] == t1[y]);
            } else if x == k {
                assert(t2[y] == t1[y]);
                assert(t1[y].0@ != key || k == y);
            } else {
                assert(t2[x] == t1[x]);
                assert(t1[x].0@ != key);
            }
        } else {
            if y == t1.len() {
                assert(t2[x] == t1[x]);
                assert(t1[x].0@ != key);
            } else {
                assert(t2[x] == t1[x]);
                assert(t2[y] == t1[y]);
            }
        }
    }
}

proof fn lemma_insert_keys_snoc(m: Map<Seq<char>, int>, keys: Seq<Seq<char>>, j: int, i: int)
    requires
        0 <= j < keys.len(),
    ensures
        insert_keys(m, keys.take(j + 1), i) == insert_keys(m, keys.take(j), i).insert(keys[j], i),
    decreases j,
{
    if j == 0 {
        assert(keys.take(1)[0] == keys[0]);
        assert(keys.take(1).drop_first() =~= Seq::<Seq<char>>::empty());
        assert(keys.take(0) =~= Seq::<Seq<char>>::empty());
        assert(insert_keys(m, keys.take(0), i) == m);
        assert(insert_keys(m, keys.take(1), i) == insert_keys(
            m.insert(keys[0], i),
            keys.take(1).drop_first(),
            i,
        ));
        assert(insert_keys(m.insert(keys[0], i), keys.take(1).drop_first(), i) == m.insert(
            keys[0],
            i,
        ));
    } else {
        let m1 = m.insert(keys[0], i);
        lemma_insert_keys_snoc(m1, keys.drop_first(), j - 1, i);
        assert(keys.take(j + 1)[0] == keys[0]);
        assert(keys.take(j + 1).drop_first() =~= keys.drop_first().take(j));
        assert(keys.take(j)[0] == keys[0]);
        assert(keys.take(j).drop_first() =~= keys.drop_first().take(j - 1));
        assert(keys.drop_first()[j - 1] == keys[j]);
        assert(insert_keys(m, keys.take(j + 1), i) == insert_keys(
            m1,
            keys.drop_first().take(j),
            i,
        ));
        assert(insert_keys(m, keys.take(j), i) == insert_keys(
            m1,
            keys.drop_first().take(j - 1),
            i,
        ));
    }
}

impl Config {
    /// The current profile, if its identifier names one.
    pub fn get_current_synth(&self) -> (r: Option<&Synth>)
        ensures
            ({
                let k = synth_idx(self.synths@, self.current_synth@);
                &&& ((r is Some) <==> k < self.synths@.len())
                &&& (r matches Some(s) ==> k < self.synths@.len() && *s == self.synths@[k])
            }),
    {
        match self.find_synth(self.current_synth.as_str()) {
            Some(k) => Some(&self.synths[k]),
            None => None,
        }
    }

    /// The identifiers of every profile, in definition order.
    pub fn get_synth_list(&self) -> (r: Vec<String>)
        ensures
            r.deep_view() == self.synths@.map_values(|s: Synth| s.id@),
    {
        let n = self.synths.len();
        let mut out: Vec<String> = Vec::new();
        let mut i: usize = 0;
        while i < n
            invariant
                n == self.synths@.len(),
                i <= n,
                out@.len() == i,
                forall|k: int| 0 <= k < i ==> out@[k]@ == self.synths@[k].id@,
            decreases n - i,
        {
            out.push(self.synths[i].id.clone());
            i += 1;
        }
        proof {
            assert(out.deep_view() =~= self.synths@.map_values(|s: Synth| s.id@));
        }
        out
    }

    /// Copies of every profile's codecs, flattened in profile order; the
    /// union a message classifier tests inbound buffers against.
    pub fn get_all_midi_commands(&self) -> (r: Vec<MidiCommand>)
        ensures
            r@.len() == all_commands(self.synths@).len(),
            forall|x: int|
                0 <= x < r@.len() ==> cmd_eq(r@[x], #[trigger] all_commands(self.synths@)[x]),
    {
        let n = self.synths.len();
        let mut out: Vec<MidiCommand> = Vec::new();
        let mut i: usize = 0;
        proof {
            assert(self.synths@.take(0) =~= Seq::<Synth>::empty());
        }
        while i < n
            invariant
                n == self.synths@.len(),
                i <= n,
                out@.len() == all_commands(self.synths@.take(i as int)).len(),
                forall|x: int|
                    0 <= x < out@.len() ==> cmd_eq(
                        out@[x],
                        #[trigger] all_commands(self.synths@.take(i as int))[x],
                    ),
            decreases n - i,
        {
            let m = self.synths[i].commands.len();
            let mut j: usize = 0;
            while j < m
                invariant
                    n == self.synths@.len(),
                    i < n,
                    m == self.synths@[i as int].commands@.len(),
                    j <= m,
                    out@.len() == all_commands(self.synths@.take(i as int)).len() + j,
                    forall|x: int|
                        0 <= x < all_commands(self.synths@.take(i as int)).len() ==> cmd_eq(
                            out@[x],
                            #[trigger] all_commands(self.synths@.take(i as int))[x],
                        ),
                    forall|x: int|
                        0 <= x < j ==> cmd_eq(
                            out@[all_commands(self.synths@.take(i as int)).len() + x],
                            #[trigger] self.synths@[i as int].commands@[x],
                        ),
                decreases m - j,
            {
                out.push(self.synths[i].commands[j].clone());
                j += 1;
            }
            proof {
                let t = self.synths@.take(i as int + 1);
                assert(t.drop_last() =~= self.synths@.take(i as int));
                assert(t.last() == self.synths@[i as int]);
                assert(all_commands(t) == all_commands(self.synths@.take(i as int))
                    + self.synths@[i as int].commands@);
            }
            i += 1;
        }
        proof {
            assert(self.synths@.take(n as int) =~= self.synths@);
        }
        out
    }

    /// The alias table of the profile named `synth`, as name/codec entries:
    /// one entry per name that resolves, holding a copy of the codec the
    /// name resolves to — the latest-defined codec carrying the name.
    pub fn load_synth(&self, synth: &str) -> (r: Option<Vec<(String, MidiCommand)>>)
        ensures
            (r is Some) <==> synth_idx(self.synths@, synth@) < self.synths@.len(),
            r matches Some(t) ==> realizes(
                t@,
                alias_map(self.synths@[synth_idx(self.synths@, synth@)].commands@),
                self.synths@[synth_idx(self.synths@, synth@)].commands@,
            ),
    {
        let found = self.find_synth(synth);
        let k = match found {
            None => {
                return None;
            },
            Some(k) => k,
        };
        let ghost cmds = self.synths@[k as int].commands@;
        let n = self.synths[k].commands.len();
        let mut tbl: Vec<(String, MidiCommand)> = Vec::new();
        let mut i: usize = 0;
        proof {
            assert(realizes(tbl@, alias_map_upto(cmds, 0), cmds));
        }
        while i < n
            invariant
                k < self.synths@.len(),
                cmds == self.synths@[k as int].commands@,
                n == cmds.len(),
                i <= n,
                realizes(tbl@, alias_map_upto(cmds, i as int), cmds),
            decreases n - i,
        {
            let c = &self.synths[k].commands[i];
            let ghost keys = keys_of(cmds[i as int]);
            let ghost m0 = alias_map_upto(cmds, i as int);
            let ghost t1 = tbl@;
            table_insert(&mut tbl, &c.name, c);
            proof {
                assert(keys.take(1)[0] == keys[0]);
                assert(keys[0] == cmds[i as int].name@);
                assert(keys.take(0) =~= Seq::<Seq<char>>::empty());
                assert(insert_keys(m0, keys.take(0), i as int) == m0);
                lemma_insert_keys_snoc(m0, keys, 0, i as int);
                lemma_realizes_insert(
                    t1,
                    tbl@,
                    m0,
                    cmds,
                    cmds[i as int].name@,
                    i as int,
                    cmds[i as int],
                );
                assert(realizes(tbl@, insert_keys(m0, keys.take(1), i as int), cmds));
            }
            let na = c.aliases.len();
            let mut a: usize = 0;
            proof {
                assert(keys.len() == 1 + cmds[i as int].aliases@.len());
            }
            while a < na
                invariant
                    k < self.synths@.len(),
                    cmds == self.synths@[k as int].commands@,
                    i < cmds.len(),
                    m0 == alias_map_upto(cmds, i as int),
                    keys == keys_of(cmds[i as int]),
                    na == cmds[i as int].aliases@.len(),
                    keys.len() == 1 + na,
                    a <= na,
                    realizes(tbl@, insert_keys(m0, keys.take(a + 1), i as int), cmds),
                decreases na - a,
            {
                let c2 = &self.synths[k].commands[i];
                let al = &c2.aliases[a];
                proof {
                    assert(keys[a as int + 1] == cmds[i as int].aliases@[a as int]@);
                }
                let ghost t1 = tbl@;
                table_insert(&mut tbl, al, c2);
                proof {
                    lemma_insert_keys_snoc(m0, keys, a as int + 1, i as int);
                    lemma_realizes_insert(
                        t1,
                        tbl@,
                        insert_keys(m0, keys.take(a + 1), i as int),
                        cmds,
                        keys[a as int + 1],
                        i as int,
                        cmds[i as int],
                    );
                }
                a += 1;
            }
            proof {
                assert(keys.take(na as int + 1) =~= keys);
                assert(alias_map_upto(cmds, i as int + 1) == insert_keys(
                    m0,
                    keys,
                    i as int,
                ));
            }
            i += 1;
        }
        Some(tbl)
    }
}

} // verus!
