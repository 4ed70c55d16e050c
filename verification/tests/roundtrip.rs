//! End-to-end scenarios: generating, matching and extracting through a
//! profile, and the byte-level round trip.

use midiprog::config::Config;
use midiprog::midi_command::{MidiCommand, MidiParameter};
use midiprog::utils::stob;

#[test]
fn generate_match_extract_round_trip() {
    let mut m = MidiCommand::new(String::from("Parameter Change"));
    m.midi = String::from("F0 0n p v F7");
    m.add_parameter(MidiParameter::new_str("n", 1, "Channel"));
    m.add_parameter(MidiParameter::new_str("p", 2, "Parameter"));
    m.add_parameter(MidiParameter::new_str("v", 2, "Value"));
    m.compile();

    let text = m.generate(&[1, 2, 3]).unwrap();
    assert_eq!(text, "F0 01 02 03 F7");
    let bytes = stob(text.as_str());
    assert_eq!(bytes, vec![0xF0, 0x01, 0x02, 0x03, 0xF7]);
    assert!(m.matches(&bytes));
    assert_eq!(m.extract_values(&bytes), vec![0x01, 0x02, 0x03]);

    // the same through the byte-producing operation
    let direct = m.generate_bytes(&[1, 2, 3]).unwrap();
    assert_eq!(direct, bytes);
}

#[test]
fn round_trip_other_values() {
    let mut m = MidiCommand::new(String::from("t"));
    m.midi = String::from("F0 0n p v F7");
    m.add_parameter(MidiParameter::new_str("n", 1, "Channel"));
    m.add_parameter(MidiParameter::new_str("p", 2, "Parameter"));
    m.add_parameter(MidiParameter::new_str("v", 2, "Value"));
    m.compile();
    let bytes = m.generate_bytes(&[0xA, 0xFE, 0x00]).unwrap();
    assert_eq!(bytes, vec![0xF0, 0x0A, 0xFE, 0x00, 0xF7]);
    assert!(m.matches(&bytes));
    assert_eq!(m.extract_values(&bytes), vec![0x0A, 0xFE, 0x00]);
}

#[test]
fn end_to_end_profile() {
    let mut conf = Config::new();
    conf.define_profile(
        String::from("ju-2"),
        String::from("Juno-2"),
        String::from("Roland"),
    );
    conf.define_command(
        String::from("Program Parameter Request"),
        String::from("F0 42 3n 0B 10 p F7"),
        String::from("pr"),
        vec![
            MidiParameter::new_str("n", 1, "Channel"),
            MidiParameter::new_str("p", 2, "Parameter"),
        ],
    )
    .unwrap();

    let table = conf.load_synth("ju-2").expect("profile resolves");
    let entry = table.iter().find(|e| e.0 == "pr").expect("alias resolves");
    let codec = &entry.1;

    // exactly seven bytes, with the fixed bytes and the fixed high nibble
    assert!(codec.matches(&[0xF0, 0x42, 0x3A, 0x0B, 0x10, 0x05, 0xF7]));
    assert!(codec.matches(&[0xF0, 0x42, 0x30, 0x0B, 0x10, 0x7F, 0xF7]));
    assert!(!codec.matches(&[0xF0, 0x42, 0x4A, 0x0B, 0x10, 0x05, 0xF7]));
    assert!(!codec.matches(&[0xF0, 0x42, 0x3A, 0x0C, 0x10, 0x05, 0xF7]));
    assert!(!codec.matches(&[0xF0, 0x42, 0x3A, 0x0B, 0x11, 0x05, 0xF7]));
    assert!(!codec.matches(&[0xF0, 0x42, 0x3A, 0x0B, 0x10, 0x05]));
    assert!(!codec.matches(&[0xF0, 0x42, 0x3A, 0x0B, 0x10, 0x05, 0xF7, 0x00]));

    let bytes = codec.generate_bytes(&[1, 2]).unwrap();
    assert_eq!(bytes, vec![0xF0, 0x42, 0x31, 0x0B, 0x10, 0x02, 0xF7]);
    assert!(codec.matches(&bytes));
    assert_eq!(codec.extract_values(&bytes), vec![0x01, 0x02]);
}

#[test]
fn loaded_profile_commands_match_and_extract() {
    let mut conf = Config::new();
    conf.define_profile(
        String::from("ju-2"),
        String::from("Alpha Juno-2"),
        String::from("Roland"),
    );
    conf.define_command(
        String::from("Individual Tone Parameter"),
        String::from("F0 41 36 0n 23 20 01 p v F7"),
        String::from("ipr parameter param"),
        vec![
            MidiParameter::new_str("n", 1, "Channel"),
            MidiParameter::new_str("p", 2, "Parameter"),
            MidiParameter::new_str("v", 2, "Value"),
        ],
    )
    .unwrap();
    conf.define_command(
        String::from("Program Parameter Request"),
        String::from("F0 42 3n 0B 10 p F7"),
        String::from("pr"),
        vec![
            MidiParameter::new_str("n", 1, "Channel"),
            MidiParameter::new_str("p", 2, "Parameter"),
        ],
    )
    .unwrap();

    let s = conf.get_current_synth().expect("No synth loaded");
    assert_eq!(s.name, "Alpha Juno-2");
    assert_eq!(s.manufacturer, "Roland");
    assert!(s.has_command("ipr"));
    assert!(s.has_command("pr"));

    let command = s.get_command("ipr").unwrap();
    assert!(command.matches(&[0xF0, 0x41, 0x36, 0x00, 0x23, 0x20, 0x01, 0x01, 0x01, 0xF7]));
    assert!(!command.matches(&[0xF0, 0x40, 0x36, 0x00, 0x23, 0x20, 0x01, 0x01, 0x01, 0xF7]));
    assert_eq!(
        command.extract_values(&[0xF0, 0x41, 0x36, 0x00, 0x23, 0x20, 0x01, 0x01, 0x01, 0xF7]),
        vec![0x00, 0x01, 0x01]
    );
}
