//! Codecs for a device's binary control protocol (MIDI System-Exclusive).
//!
//! A textual template such as `F0 42 3n 0B 10 p F7` — fixed hexadecimal
//! bytes mixed with named placeholder fields — is compiled into a
//! mask/value pair at nibble granularity.  The compiled codec can generate
//! concrete outbound byte sequences from parameter values, test whether an
//! inbound byte sequence matches the template, and extract the variable
//! bytes packed into a matching sequence.  Codecs are grouped into device
//! profiles and looked up through an alias table.

pub mod hexchars;
pub mod strutil;
pub mod utils;
pub mod midi_parser;
pub mod midi_command;
pub mod command_parser;
pub mod synth;
pub mod config;
pub mod codec_laws;
