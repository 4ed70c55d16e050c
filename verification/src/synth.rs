//! A device profile: metadata and the codecs of one device's command set.

use vstd::prelude::*;

use crate::midi_command::MidiCommand;
use crate::strutil::{contains_str, str_eq};

verus! {

/// Whether codec `c` answers to `id`: by canonical name or by alias.
pub open spec fn cmd_answers_to(c: MidiCommand, id: Seq<char>) -> bool {
    c.name@ == id || exists|k: int| 0 <= k < c.aliases@.len() && c.aliases@[k]@ == id
}

/// A device profile; commands are appended as their definitions arrive.
pub struct Synth {
    pub name: String,
    pub id: String,
    pub manufacturer: String,
    pub commands: Vec<MidiCommand>,
}

impl Synth {
    pub fn new(name: String, id: String, manufacturer: String) -> (r: Synth)
        ensures
            r.name == name,
            r.id == id,
            r.manufacturer == manufacturer,
            r.commands@ == Seq::<MidiCommand>::empty(),
    {
        Synth { name, id, manufacturer, commands: Vec::new() }
    }

    /// A profile with only its identifier set.
    pub fn from_id(id: String) -> (r: Synth)
        ensures
            r.name@ == Seq::<char>::empty(),
            r.id == id,
            r.manufacturer@ == Seq::<char>::empty(),
            r.commands@ == Seq::<MidiCommand>::empty(),
    {
        Synth {
            name: String::new(),
            id,
            manufacturer: String::new(),
            commands: Vec::new(),
        }
    }

    /// Whether some command of the profile answers to `id`.
    pub fn has_command(&self, id: &str) -> (r: bool)
        ensures
            r == exists|i: int| 0 <= i < self.commands@.len() && cmd_answers_to(
                self.commands@[i],
                id@,
            ),
    {
        let n = self.commands.len();
        let mut i: usize = 0;
        while i < n
            invariant
                n == self.commands@.len(),
                i <= n,
                forall|k: int| 0 <= k < i ==> !cmd_answers_to(self.commands@[k], id@),
            decreases n - i,
        {
            if str_eq(self.commands[i].name.as_str(), id) || contains_str(
                &self.commands[i].aliases,
                id,
            ) {
                proof {
                    assert(cmd_answers_to(self.commands@[i as int], id@));
                }
                return true;
            }
            i += 1;
        }
        false
    }

    /// The first command of the profile that answers to `id`, if any.
    pub fn get_command(&self, id: &str) -> (r: Option<&MidiCommand>)
        ensures
            (r is Some) == exists|i: int| 0 <= i < self.commands@.len() && cmd_answers_to(
                self.commands@[i],
                id@,
            ),
            r matches Some(c) ==> exists|i: int|
                0 <= i < self.commands@.len() && *c == self.commands@[i] && cmd_answers_to(
                    self.commands@[i],
                    id@,
                ) && forall|j: int| 0 <= j < i ==> !cmd_answers_to(self.commands@[j], id@),
    {
        let n = self.commands.len();
        let mut i: usize = 0;
        while i < n
            invariant
                n == self.commands@.len(),
                i <= n,
                forall|k: int| 0 <= k < i ==> !cmd_answers_to(self.commands@[k], id@),
            decreases n - i,
        {
            if str_eq(self.commands[i].name.as_str(), id) || contains_str(
                &self.commands[i].aliases,
                id,
            ) {
                proof {
                    assert(cmd_answers_to(self.commands@[i as int], id@));
                }
                return Some(&self.commands[i]);
            }
            i += 1;
        }
        None
    }
}

} // verus!
