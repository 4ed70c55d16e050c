//! Tests of the codec layer: hex conversion, parameters, template
//! compilation, matching and extraction.

use midiprog::midi_command::{CodecError, MalformedParameterError, MidiCommand, MidiParameter};
use midiprog::midi_parser::{MIDIParser, TemplateError};
use midiprog::utils::{stob, try_stob};

#[test]
fn bin_main_test_stob() {
    assert_eq!(stob("F0 C1 A2 F7"), [0xF0, 0xC1, 0xA2, 0xF7]);
}

#[test]
fn main_test_stob() {
    assert_eq!(stob("F0 C1 A2 F7"), [0xF0, 0xC1, 0xA2, 0xF7]);
}

#[test]
fn stob_accepts_lowercase() {
    assert_eq!(stob("f0 a2"), [0xF0, 0xA2]);
}

#[test]
fn try_stob_rejects_placeholders() {
    assert_eq!(try_stob("F0 q F7"), None);
    assert_eq!(try_stob("F00BF7"), Some(vec![0xF0, 0x0B, 0xF7]));
}

#[test]
fn test_param_half_byte() {
    let p = MidiParameter::new_str("n", 1, "Channel");
    assert_eq!(p.characters(), 1);
    assert_eq!(p.midi(10), "a");
}

#[test]
fn test_param_full_byte() {
    let p = MidiParameter::new_str("n", 2, "Channel");
    assert_eq!(p.characters(), 2);
    assert_eq!(p.midi(10), "0a");
    assert_eq!(p.midi(254), "fe");
}

#[test]
fn param_parse_fields() {
    let p = MidiParameter::new_parse("n : 1 : Channel").unwrap();
    assert_eq!(p.key, "n");
    assert_eq!(p.size, 1);
    assert_eq!(p.name, "Channel");
}

#[test]
fn param_parse_too_few_fields() {
    assert!(matches!(
        MidiParameter::new_parse("n : 1"),
        Err(MalformedParameterError::TooFewFields)
    ));
}

#[test]
fn param_parse_bad_width() {
    assert!(matches!(
        MidiParameter::new_parse("n : x : Channel"),
        Err(MalformedParameterError::BadWidth)
    ));
}

#[test]
fn test_command() {
    let n = MidiParameter::new_str("n", 1, "Channel");
    let p = MidiParameter::new_str("p", 2, "Parameter");
    let v = MidiParameter::new_str("v", 2, "Value");
    let mut m = MidiCommand::new("Parameter Change".to_owned());
    m.midi = String::from("F0 0n p v F7");
    m.add_parameter(n);
    m.add_parameter(p);
    m.add_parameter(v);

    let b = vec![
        (String::from("n"), String::from("1")),
        (String::from("p"), String::from("02")),
        (String::from("v"), String::from("03")),
    ];

    assert_eq!(m.generate_map(&b), "F0 01 02 03 F7");
    assert_eq!(m.generate(&[1, 2, 3]).unwrap(), "F0 01 02 03 F7");
}

#[test]
fn mixed_nibble_token_compiles() {
    assert_eq!(MidiCommand::maskify_byte("3n"), 0xF0);
    assert_eq!(MidiCommand::destringify_byte("3n"), 0x30);
    let mut c = MidiCommand::new(String::from("t"));
    c.midi = String::from("3n");
    c.compile();
    assert!(c.matches(&[0x3A]));
    assert!(!c.matches(&[0x4A]));
}

#[test]
fn matching_is_exact_on_length() {
    let mut c = MidiCommand::new(String::from("t"));
    c.midi = String::from("F0 F7");
    c.compile();
    assert!(c.matches(&[0xF0, 0xF7]));
    assert!(!c.matches(&[0xF0]));
    assert!(!c.matches(&[0xF0, 0xF7, 0x00]));
    assert!(!c.matches(&[]));
}

#[test]
fn arity_mismatch_rejected() {
    let mut m = MidiCommand::new(String::from("t"));
    m.midi = String::from("F0 0n p v F7");
    m.add_parameter(MidiParameter::new_str("n", 1, "Channel"));
    m.add_parameter(MidiParameter::new_str("p", 2, "Parameter"));
    m.add_parameter(MidiParameter::new_str("v", 2, "Value"));
    assert_eq!(m.generate(&[1, 2]), Err(CodecError::ArityMismatch));
    assert_eq!(m.generate(&[1, 2, 3, 4]), Err(CodecError::ArityMismatch));
}

#[test]
fn oversized_value_rejected() {
    let mut m = MidiCommand::new(String::from("t"));
    m.midi = String::from("F0 0n F7");
    m.add_parameter(MidiParameter::new_str("n", 1, "Channel"));
    assert_eq!(m.generate(&[16]), Err(CodecError::ValueTooLarge));
    assert_eq!(m.generate(&[15]).unwrap(), "F0 0f F7");
}

#[test]
fn unresolved_placeholder_reported() {
    let mut m = MidiCommand::new(String::from("t"));
    m.midi = String::from("F0 q F7");
    m.compile();
    assert_eq!(m.generate_bytes(&[]), Err(CodecError::UnresolvedPlaceholder));
}

#[test]
fn extraction_clears_fixed_nibbles() {
    let mut c = MidiCommand::new(String::from("t"));
    c.midi = String::from("F0 41 36 0n 23 20 01 p v F7");
    c.compile();
    let data = [0xF0, 0x41, 0x36, 0x00, 0x23, 0x20, 0x01, 0x01, 0x01, 0xF7];
    assert!(c.matches(&data));
    assert!(!c.matches(&[0xF0, 0x40, 0x36, 0x00, 0x23, 0x20, 0x01, 0x01, 0x01, 0xF7]));
    assert_eq!(c.extract_values(&data), vec![0x00, 0x01, 0x01]);
}

#[test]
fn wide_values_render_fully() {
    let p = MidiParameter::new_str("v", 8, "Value");
    assert_eq!(p.midi(0xFFFF_FFFF), "ffffffff");
    assert_eq!(p.midi(0x0102_0304), "01020304");
}

#[test]
fn empty_template_compiles_to_one_wildcard_byte() {
    // splitting empty text at spaces yields one empty token
    let mut c = MidiCommand::new(String::from("t"));
    c.compile();
    assert_eq!(c.mask, vec![0x00]);
    assert_eq!(c.masked_val, vec![0x00]);
    assert!(c.matches(&[0x55]));
    assert!(!c.matches(&[]));
    assert!(!c.matches(&[0x00, 0x00]));
}

#[test]
fn nibble_stream_mask_and_values() {
    // "F0 7n" strips to "F07n": one full fixed byte, then a fixed high
    // nibble over a placeholder.
    assert_eq!(MIDIParser::destringify("F0 7n"), vec![0xFF, 0xF0]);
    assert_eq!(MIDIParser::maskify("F0 7n"), vec![0xF0, 0x70]);
}

#[test]
fn nibble_stream_compile_rejects_odd_length() {
    assert_eq!(MIDIParser::compile("F0 4"), Err(TemplateError::OddLength));
    let (mask, fixed) = MIDIParser::compile("F0 4n").unwrap();
    assert_eq!(mask, vec![0xFF, 0xF0]);
    assert_eq!(fixed, vec![0xF0, 0x40]);
}
